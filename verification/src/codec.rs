//! The envelope around every command and response: a header that carries the
//! sequence number, followed by the body.

use vstd::prelude::*;
use vstd::utf8::encode_utf8;
use crate::wire::{map_len_bytes, str_bytes, uint_bytes, write_map_len, write_str, write_uint};

verus! {

/// Outcome of a call: the value, or the error message the agent sent.
pub type RPCResult<T> = Result<T, String>;

/// A command ready to be sent: its name and its already encoded body.
#[derive(Debug, Clone, PartialEq, Eq)]
pub struct SerializedCommand {
    pub name: String,
    pub body: Vec<u8>,
}

/// Header of a request frame.
#[derive(Debug, Clone, PartialEq, Eq)]
pub struct RequestHeader {
    pub seq: u64,
    pub command: String,
}

/// Header of a response frame.
#[derive(Debug, Clone, PartialEq, Eq)]
pub struct ResponseHeader {
    pub seq: u64,
    pub error: String,
}

/// True when the byte length of `s` can be announced in a string header.
pub open spec fn fits_str(s: Seq<char>) -> bool {
    encode_utf8(s).len() <= u32::MAX
}

/// A string given by its characters, as it stands on the wire.
pub open spec fn text_bytes(s: Seq<char>) -> Seq<u8> {
    str_bytes(encode_utf8(s))
}

/// The request header on the wire: a map of two entries, `Seq` and then
/// `Command`.
pub open spec fn request_header_bytes(seq: u64, command: Seq<char>) -> Seq<u8> {
    map_len_bytes(2) + text_bytes("Seq"@) + uint_bytes(seq) + text_bytes("Command"@) + text_bytes(
        command,
    )
}

/// A whole request frame: header, then body.
pub open spec fn frame_bytes(seq: u64, command: Seq<char>, body: Seq<u8>) -> Seq<u8> {
    request_header_bytes(seq, command) + body
}

/// Proves that a short literal of plain ASCII fits a string header.
pub proof fn lemma_ascii_fits(s: &str)
    requires
        s.is_ascii(),
        s@.len() <= u32::MAX,
    ensures
        fits_str(s@),
        encode_utf8(s@).len() == s@.len(),
{
    vstd::string::is_ascii_spec_bytes(s);
}

/// Tells whether `s` is short enough to be written as a string.
pub fn str_fits(s: &str) -> (ok: bool)
    ensures
        ok == fits_str(s@),
{
    s.as_bytes().len() <= 0xffff_ffff
}

impl SerializedCommand {
    /// A command can be framed when its name fits a string header.
    pub open spec fn wf(&self) -> bool {
        fits_str(self.name@)
    }

    /// Pairs a command name with its encoded body; `None` when the name is
    /// too long to be written.
    pub fn new(name: &str, body: Vec<u8>) -> (cmd: Option<Self>)
        ensures
            cmd is Some <==> fits_str(name@),
            cmd matches Some(c) ==> c.name@ == name@ && c.body@ == body@ && c.wf(),
    {
        if str_fits(name) {
            Some(SerializedCommand { name: name.to_owned(), body })
        } else {
            None
        }
    }
}

impl RequestHeader {
    /// Encodes the header as a named map, `Seq` first.
    pub fn encode(&self) -> (out: Vec<u8>)
        requires
            fits_str(self.command@),
        ensures
            out@ == request_header_bytes(self.seq, self.command@),
    {
        let mut buf: Vec<u8> = Vec::new();
        proof {
            reveal_strlit("Seq");
            reveal_strlit("Command");
            lemma_ascii_fits("Seq");
            lemma_ascii_fits("Command");
        }
        write_map_len(&mut buf, 2);
        write_str(&mut buf, "Seq");
        write_uint(&mut buf, self.seq);
        write_str(&mut buf, "Command");
        write_str(&mut buf, self.command.as_str());
        assert(buf@ =~= request_header_bytes(self.seq, self.command@));
        buf
    }
}

/// Builds the frame of `cmd` under sequence number `seq`: the encoded header
/// with the body appended unchanged.
pub fn encode_frame(seq: u64, cmd: SerializedCommand) -> (out: Vec<u8>)
    requires
        cmd.wf(),
    ensures
        out@ == frame_bytes(seq, cmd.name@, cmd.body@),
{
    let SerializedCommand { name, body } = cmd;
    let header = RequestHeader { seq, command: name };
    let mut buf = header.encode();
    let mut body = body;
    buf.append(&mut body);
    buf
}

/// The error that every waiting party is given when the connection dies.
pub fn connection_closed() -> (error: String)
    ensures
        error@ == "connection closed"@,
{
    "connection closed".to_owned()
}

impl ResponseHeader {
    /// What the handler for this response is given: the body when the error
    /// string is empty, otherwise the error string and no body.
    pub open spec fn outcome<B>(&self, body: B) -> RPCResult<B> {
        if self.error@.len() == 0 {
            Ok(body)
        } else {
            Err(self.error)
        }
    }

    /// Turns a decoded header and the body behind it into the result to
    /// deliver.
    pub fn into_result<B>(self, body: B) -> (res: RPCResult<B>)
        ensures
            res == self.outcome(body),
    {
        if self.error.as_str().is_empty() {
            Ok(body)
        } else {
            Err(self.error)
        }
    }
}

} // verus!
