//! Error values the server surfaces in-band: decoding failures, an
//! unknown command, and a value of the wrong type.

use vstd::prelude::*;

verus! {

/// Why a buffer failed to decode: empty input, input that stops
/// inside a value, or bytes that are no RESP frame at all.
#[derive(Clone, Copy, Debug, PartialEq, Eq, Structural)]
pub enum RespError {
    UnexpectedEof,
    NeedMore,
    InvalidInput,
}

/// The wire message sent when a buffer does not decode.
pub open spec fn invalid_input_msg() -> Seq<u8> {
    // "ERR invalid input"
    seq![69u8, 82u8, 82u8, 32u8, 105u8, 110u8, 118u8, 97u8, 108u8, 105u8, 100u8, 32u8, 105u8,
        110u8, 112u8, 117u8, 116u8]
}

impl RespError {
    /// The message bytes reported for a malformed buffer.
    pub fn invalid_input_message() -> (r: Vec<u8>)
        ensures
            r@ == invalid_input_msg(),
    {
        let mut out: Vec<u8> = Vec::new();
        out.push(69);
        out.push(82);
        out.push(82);
        out.push(32);
        out.push(105);
        out.push(110);
        out.push(118);
        out.push(97);
        out.push(108);
        out.push(105);
        out.push(100);
        out.push(32);
        out.push(105);
        out.push(110);
        out.push(112);
        out.push(117);
        out.push(116);
        proof {
            assert(out@ =~= invalid_input_msg());
        }
        out
    }
}

/// Raised when no registered command recognizes a request.
pub struct CommandNotFoundError {
    pub cmd: String,
}

impl CommandNotFoundError {
    /// The message shown for an unrecognized command.
    pub fn get_output(&self) -> (r: String)
        ensures
            r@ == "invalid command "@ + self.cmd@,
    {
        let prefix = String::from_str("invalid command ");
        prefix.concat(self.cmd.as_str())
    }
}

/// Marker for a read that returned no bytes.
pub struct Eof;

/// A stored value that does not parse as the type a command needs.
pub struct ValueIsNotType {
    pub kind_name: String,
    pub can_be_out_of_range: Option<bool>,
}

impl ValueIsNotType {
    /// The message shown for a value of the wrong type, matching the
    /// wire text `ERR value is not an <type>[ or out of range]`.
    pub fn message(&self) -> (r: String)
        ensures
            r@ == "ERR value is not an "@ + self.kind_name@ + (if self.can_be_out_of_range
                == Some(true) {
                " or out of range"@
            } else {
                Seq::<char>::empty()
            }),
    {
        let base = String::from_str("ERR value is not an ").concat(self.kind_name.as_str());
        let out_of_range = match self.can_be_out_of_range {
            Some(flag) => flag,
            None => false,
        };
        if out_of_range {
            base.concat(" or out of range")
        } else {
            proof {
                assert(base@ + Seq::<char>::empty() =~= base@);
            }
            base
        }
    }
}

} // verus!
