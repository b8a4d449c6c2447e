//! The RESP wire format: replies, and the numbers in request headers.
use crate::text::{decimal, parse_unsigned, parse_usize, trim, trim_str, u64_to_string};
use vstd::prelude::*;
use vstd::utf8::encode_utf8;

verus! {

fn concat(a: String, b: &str) -> (r: String)
    ensures
        r@ == a@ + b@,
{
    let mut a = a;
    a.append(b);
    a
}

/// The length in bytes of the UTF-8 encoding of a text (what `str::len` gives).
pub open spec fn byte_len(s: Seq<char>) -> nat {
    (encode_utf8(s).len() as usize) as nat
}

/// A bulk string: `$`, the byte length of the UTF-8 text, CRLF, the text, CRLF.
pub open spec fn bulk_reply(s: Seq<char>) -> Seq<char> {
    "$"@ + decimal(byte_len(s)) + "\r\n"@ + s + "\r\n"@
}

/// The null bulk string.
pub open spec fn null_reply() -> Seq<char> {
    "$-1\r\n"@
}

/// An integer reply.
pub open spec fn integer_reply(n: nat) -> Seq<char> {
    ":"@ + decimal(n) + "\r\n"@
}

/// An error reply carrying a message.
pub open spec fn error_reply(msg: Seq<char>) -> Seq<char> {
    "-ERR "@ + msg + "\r\n"@
}

/// Writes a bulk string.
pub fn bulk(s: &str) -> (r: String)
    ensures
        r@ == bulk_reply(s@),
{
    let n = s.len();
    let r = concat("$".to_owned(), u64_to_string(n as u64).as_str());
    let r = concat(r, "\r\n");
    let r = concat(r, s);
    concat(r, "\r\n")
}

/// Writes the null bulk string.
pub fn null_bulk() -> (r: String)
    ensures
        r@ == null_reply(),
{
    "$-1\r\n".to_owned()
}

/// Writes an integer reply.
pub fn integer(n: u64) -> (r: String)
    ensures
        r@ == integer_reply(n as nat),
{
    let r = concat(":".to_owned(), u64_to_string(n).as_str());
    concat(r, "\r\n")
}

/// Writes an error reply.
pub fn error(msg: &str) -> (r: String)
    ensures
        r@ == error_reply(msg@),
{
    let r = concat("-ERR ".to_owned(), msg);
    concat(r, "\r\n")
}

/// Reading the number after the marker of a header line takes its first byte off the trimmed
/// line: that needs a first character, and one that is a single byte.
pub open spec fn header_readable(line: Seq<char>) -> bool {
    trim(line).len() > 0 && (trim(line)[0] as u32) < 0x80
}

/// The number a header line (`*3`, `$5`) announces: what follows its first character,
/// read as an unsigned number, or `0` when that is not one.
pub open spec fn header_number(line: Seq<char>) -> nat {
    match parse_unsigned(trim(line).drop_first()) {
        Some(n) => if n <= usize::MAX {
            n
        } else {
            0
        },
        None => 0,
    }
}

/// Reads the count or length a header line announces.
pub fn header_count(line: &str) -> (n: usize)
    requires
        header_readable(line@),
    ensures
        n == header_number(line@),
{
    let t = trim_str(line);
    let cs = crate::text::chars_of(t.as_str());
    let rest = crate::text::slice_chars(&cs, 1, cs.len());
    let rest_s = crate::text::string_from_chars(&rest);
    assert(rest_s@ == trim(line@).drop_first());
    match parse_usize(rest_s.as_str()) {
        Some(n) => n,
        None => 0,
    }
}

/// A request starts with a line whose first character is `*`.
pub fn starts_request(line: &str) -> (b: bool)
    ensures
        b == (line@.len() > 0 && line@[0] == '*'),
{
    let cs = crate::text::chars_of(line);
    cs.len() > 0 && cs[0] == '*'
}

} // verus!
