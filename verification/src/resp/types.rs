//! The RESP value type: a tagged union of the wire protocol's data
//! kinds, with a ghost mirror used by the codec's specifications.

use vstd::prelude::*;
use crate::ascii::{all_digits, crlf_free};

verus! {

broadcast use vstd::seq::axiom_seq_index_decreases, vstd::std_specs::vec::axiom_vec_index_decreases;

/// Ghost mirror of `RESPDatatypes`: payloads as `Seq<u8>`, arrays as
/// `Seq<SpecResp>`.
pub enum SpecResp {
    Null,
    NullString,
    NullArray,
    Integer(i32),
    Double(Seq<u8>),
    SimpleString(Seq<u8>),
    SimpleError(Seq<u8>),
    BulkString(Seq<u8>),
    RDBFile(Seq<u8>),
    BufBulk(Seq<u8>),
    Boolean(bool),
    Array(Seq<SpecResp>),
}

/// A RESP value. Text payloads are held as their raw bytes; `Double`
/// holds the decimal text exactly as it stands on the wire.
#[derive(Debug, PartialEq)]
pub enum RESPDatatypes {
    Null,
    NullString,
    NullArray,
    Integer(i32),
    Double(Vec<u8>),
    SimpleString(Vec<u8>),
    SimpleError(Vec<u8>),
    BulkString(Vec<u8>),
    RDBFile(Vec<u8>),
    BufBulk(Vec<u8>),
    Boolean(bool),
    Array(Vec<RESPDatatypes>),
}

/// The ghost mirror of a value.
pub open spec fn view_of(v: RESPDatatypes) -> SpecResp
    decreases v, 0nat, 0nat,
{
    match v {
        RESPDatatypes::Null => SpecResp::Null,
        RESPDatatypes::NullString => SpecResp::NullString,
        RESPDatatypes::NullArray => SpecResp::NullArray,
        RESPDatatypes::Integer(n) => SpecResp::Integer(n),
        RESPDatatypes::Double(p) => SpecResp::Double(p@),
        RESPDatatypes::SimpleString(p) => SpecResp::SimpleString(p@),
        RESPDatatypes::SimpleError(p) => SpecResp::SimpleError(p@),
        RESPDatatypes::BulkString(p) => SpecResp::BulkString(p@),
        RESPDatatypes::RDBFile(p) => SpecResp::RDBFile(p@),
        RESPDatatypes::BufBulk(p) => SpecResp::BufBulk(p@),
        RESPDatatypes::Boolean(b) => SpecResp::Boolean(b),
        RESPDatatypes::Array(items) => SpecResp::Array(view_items(items, 0)),
    }
}

/// The ghost mirrors of `items[i..]`.
pub open spec fn view_items(items: Vec<RESPDatatypes>, i: int) -> Seq<SpecResp>
    decreases items, items@.len() - i, 1nat,
{
    if i < 0 || i >= items@.len() {
        Seq::<SpecResp>::empty()
    } else {
        seq![view_of(items[i])] + view_items(items, i + 1)
    }
}

pub proof fn lemma_view_items_index(items: Vec<RESPDatatypes>, i: int)
    requires
        0 <= i <= items@.len(),
    ensures
        view_items(items, i).len() == items@.len() - i,
        forall|j: int| i <= j < items@.len() ==> view_items(items, i)[j - i] == view_of(
            #[trigger] items@[j],
        ),
    decreases items@.len() - i,
{
    if i < items@.len() {
        lemma_view_items_index(items, i + 1);
    }
}

pub proof fn lemma_view_items_push(a: Vec<RESPDatatypes>, b: Vec<RESPDatatypes>, x: RESPDatatypes)
    requires
        b@ == a@.push(x),
    ensures
        view_items(b, 0) == view_items(a, 0).push(view_of(x)),
{
    lemma_view_items_index(a, 0);
    lemma_view_items_index(b, 0);
    assert forall|j: int| 0 <= j < b@.len() implies view_items(b, 0)[j] == view_items(
        a,
        0,
    ).push(view_of(x))[j] by {
        assert(view_items(b, 0)[j] == view_of(b@[j]));
        if j < a@.len() {
            assert(view_items(a, 0)[j] == view_of(a@[j]));
            assert(b@[j] == a@[j]);
        } else {
            assert(b@[j] == x);
        }
    }
    assert(view_items(b, 0) =~= view_items(a, 0).push(view_of(x)));
}

impl View for RESPDatatypes {
    type V = SpecResp;

    open spec fn view(&self) -> SpecResp {
        view_of(*self)
    }
}

/// The split of a double's magnitude at a decimal point: digits on
/// both sides.
pub open spec fn dot_split_ok(s: Seq<u8>, i: int) -> bool {
    &&& 1 <= i < s.len() - 1
    &&& s[i] == 46
    &&& all_digits(s.take(i))
    &&& all_digits(s.skip(i + 1))
}

/// The magnitude part of a double's text: what follows an optional
/// leading minus sign.
pub open spec fn double_mag(s: Seq<u8>) -> Seq<u8> {
    if s.len() >= 1 && s[0] == 45 {
        s.skip(1)
    } else {
        s
    }
}

/// Decimal-ASCII text of a double: an optional minus sign, then
/// digits with at most one interior decimal point.
pub open spec fn is_double_text(s: Seq<u8>) -> bool {
    ||| (double_mag(s).len() >= 1 && all_digits(double_mag(s)))
    ||| (exists|i: int| dot_split_ok(double_mag(s), i))
}

/// Values in the decoder's range: exactly those the decoder can hand
/// back, with payloads that survive line framing. `BulkString` and
/// `RDBFile` are emit-only shapes (the decoder returns `BufBulk`).
pub open spec fn wire_canonical(v: SpecResp) -> bool
    decreases v,
{
    match v {
        SpecResp::Null => true,
        SpecResp::NullString => true,
        SpecResp::NullArray => true,
        SpecResp::Integer(_) => true,
        SpecResp::Boolean(_) => true,
        SpecResp::Double(p) => is_double_text(p) && crlf_free(p),
        SpecResp::SimpleString(p) => crlf_free(p),
        SpecResp::SimpleError(p) => crlf_free(p),
        SpecResp::BulkString(_) => false,
        SpecResp::RDBFile(_) => false,
        SpecResp::BufBulk(p) => p.len() <= i32::MAX,
        SpecResp::Array(items) => items.len() <= i32::MAX && (forall|i: int|
            0 <= i < items.len() ==> wire_canonical(#[trigger] items[i])),
    }
}

/// Tests whether `v[from..to]` is decimal-ASCII text of a double.
#[verifier::loop_isolation(false)]
pub fn check_double_text(v: &Vec<u8>, from: usize, to: usize) -> (r: bool)
    requires
        from <= to <= v.len(),
    ensures
        r == is_double_text(v@.subrange(from as int, to as int)),
{
    let ghost s = v@.subrange(from as int, to as int);
    if from == to {
        return false;
    }
    let neg = v[from] == 45;
    let mstart: usize = if neg { from + 1 } else { from };
    let ghost m = v@.subrange(mstart as int, to as int);
    proof {
        assert(s.len() > 0);
        assert(s[0] == v@[from as int]);
        if neg {
            assert(m =~= s.skip(1));
        } else {
            assert(m =~= s);
        }
        assert(m == double_mag(s));
    }
    if mstart == to {
        proof {
            assert(forall|i: int| !dot_split_ok(m, i));
        }
        return false;
    }
    let mut j: usize = mstart;
    let mut dot: usize = to;
    loop
        invariant
            mstart <= j <= to,
            dot == to,
            forall|k: int| mstart <= k < j ==> v@[k] != 46,
        decreases to - j,
    {
        if j == to {
            break;
        }
        if v[j] == 46 {
            dot = j;
            break;
        }
        j = j + 1;
    }
    if dot == to && j == to {
        // no decimal point anywhere
        let ok = crate::ascii::all_digits_range(v, mstart, to);
        proof {
            assert(forall|k: int| 0 <= k < m.len() ==> m[k] == v@[mstart + k]);
            assert forall|i: int| !dot_split_ok(m, i) by {
                if 1 <= i < m.len() - 1 {
                    assert(m[i] != 46);
                }
            }
        }
        return ok;
    }
    let d = j;
    proof {
        assert(v@[d as int] == 46);
        assert(forall|k: int| 0 <= k < m.len() ==> m[k] == v@[mstart + k]);
        assert(m[d - mstart] == 46);
        assert(!all_digits(m));
    }
    if d == mstart {
        proof {
            assert forall|i: int| !dot_split_ok(m, i) by {
                if 1 <= i < m.len() - 1 {
                    assert(m.take(i)[0] == m[0]);
                    assert(!all_digits(m.take(i)));
                }
            }
        }
        return false;
    }
    if to - d < 2 {
        proof {
            let dd = d - mstart;
            assert forall|i: int| !dot_split_ok(m, i) by {
                if 1 <= i < m.len() - 1 {
                    assert(m[i] == v@[mstart + i]);
                    assert(i < dd);
                    assert(m[i] != 46);
                }
            }
        }
        return false;
    }
    let left_ok = crate::ascii::all_digits_range(v, mstart, d);
    let right_ok = crate::ascii::all_digits_range(v, d + 1, to);
    let ghost dd = d - mstart;
    proof {
        assert(m.take(dd) =~= v@.subrange(mstart as int, d as int));
        assert(m.skip(dd + 1) =~= v@.subrange(d + 1, to as int));
    }
    if left_ok && right_ok {
        proof {
            assert(dot_split_ok(double_mag(s), dd));
            assert(is_double_text(s));
        }
        return true;
    }
    proof {
        assert forall|i: int| !dot_split_ok(m, i) by {
            if 1 <= i < m.len() - 1 {
                if i < dd {
                    assert(m[i] == v@[mstart + i]);
                    assert(m[i] != 46);
                } else if i == dd {
                    assert(!(all_digits(m.take(dd)) && all_digits(m.skip(dd + 1))));
                } else {
                    assert(m.take(i)[dd] == m[dd]);
                    assert(!all_digits(m.take(i)));
                }
            }
        }
    }
    false
}

impl RESPDatatypes {
    /// Encodes the value to its wire form.
    pub fn encode(&self) -> (r: Vec<u8>)
        ensures
            r@ == crate::resp::serialize::spec_encode(self@),
    {
        let mut buf: Vec<u8> = Vec::new();
        crate::resp::serialize::SerializeRESP.encode(self, &mut buf);
        buf
    }
}

} // verus!
