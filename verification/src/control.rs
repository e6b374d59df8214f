//! The control channel: one command on a line, one reply.

use crate::dht::bytes::{append_bytes, bytes_eq, starts_with};
use crate::dht::keyspace::has_prefix;
use crate::text::{append_decimal, decimal, trim, trimmed};
use vstd::prelude::*;
use vstd::string::StringSliceAdditionalSpecFns;
use vstd::utf8::encode_utf8;

verus! {

/// What is to be done about a command.
#[derive(Debug)]
pub enum ControlStep {
    /// Wipe the store, and reply what [`clear_reply`] says.
    ClearDb,
    /// Reply this.
    Reply(Vec<u8>),
}

/// The command that wipes the store.
pub open spec fn clear_command() -> Seq<u8> {
    "clear-db".spec_bytes()
}

/// The reply to a command that is not known.
pub open spec fn unknown_reply(command: Seq<u8>) -> Seq<u8> {
    "error: unknown command '".spec_bytes() + command + "'\n".spec_bytes()
}

/// Decides about a command line. White space around the command does not
/// count.
pub fn dispatch(line: &str) -> (r: ControlStep)
    ensures
        ({
            let command = encode_utf8(trimmed(line@));
            if command == clear_command() {
                r is ClearDb
            } else {
                r matches ControlStep::Reply(reply) && reply@ == unknown_reply(command)
            }
        }),
{
    let command: &str = trim(line);
    if bytes_eq(command.as_bytes(), "clear-db".as_bytes()) {
        return ControlStep::ClearDb;
    }
    let mut reply: Vec<u8> = Vec::new();
    append_bytes(&mut reply, "error: unknown command '".as_bytes());
    append_bytes(&mut reply, command.as_bytes());
    append_bytes(&mut reply, "'\n".as_bytes());
    assert(reply@ =~= unknown_reply(encode_utf8(command@)));
    ControlStep::Reply(reply)
}

/// The reply to a wipe, given how many entries were cleared or why it failed.
pub fn clear_reply(cleared: Result<u64, &str>) -> (r: Vec<u8>)
    ensures
        r@ == (match cleared {
            Ok(n) => "ok: cleared ".spec_bytes() + decimal(n as nat) + " entries\n".spec_bytes(),
            Err(e) => "error: clear-db: ".spec_bytes() + e.spec_bytes() + "\n".spec_bytes(),
        }),
{
    let mut reply: Vec<u8> = Vec::new();
    match cleared {
        Ok(n) => {
            append_bytes(&mut reply, "ok: cleared ".as_bytes());
            append_decimal(&mut reply, n);
            append_bytes(&mut reply, " entries\n".as_bytes());
            assert(reply@ =~= "ok: cleared ".spec_bytes() + decimal(n as nat) + " entries\n".spec_bytes());
        },
        Err(e) => {
            append_bytes(&mut reply, "error: clear-db: ".as_bytes());
            append_bytes(&mut reply, e.as_bytes());
            append_bytes(&mut reply, "\n".as_bytes());
            assert(reply@ =~= "error: clear-db: ".spec_bytes() + e.spec_bytes() + "\n".spec_bytes());
        },
    }
    reply
}

/// Whether a reply says that the command failed.
pub fn reply_failed(reply: &str) -> (r: bool)
    ensures
        r == starts_with(reply.spec_bytes(), "error".spec_bytes()),
{
    has_prefix(reply.as_bytes(), "error".as_bytes())
}

/// Every reply to a command that is not known says that the command failed,
/// and so does every reply to a wipe that failed.
pub proof fn law_failures_are_told(command: Seq<u8>, e: Seq<u8>)
    ensures
        starts_with(unknown_reply(command), "error".spec_bytes()),
        starts_with("error: clear-db: ".spec_bytes() + e + "\n".spec_bytes(), "error".spec_bytes()),
{
    reveal_strlit("error");
    reveal_strlit("error: unknown command '");
    reveal_strlit("error: clear-db: ");
    broadcast use vstd::string::is_ascii_spec_bytes;

    let word = "error".spec_bytes();
    let a = "error: unknown command '".spec_bytes();
    let b = "error: clear-db: ".spec_bytes();
    assert(vstd::string::is_ascii("error"));
    assert(vstd::string::is_ascii("error: unknown command '"));
    assert(vstd::string::is_ascii("error: clear-db: "));
    assert(unknown_reply(command).take(5) =~= word);
    assert((b + e + "\n".spec_bytes()).take(5) =~= word);
}

/// A reply to a command that is not known says what the command was: two
/// different commands have two different replies.
pub proof fn law_unknown_command_is_quoted(a: Seq<u8>, b: Seq<u8>)
    ensures
        unknown_reply(a) == unknown_reply(b) ==> a == b,
        exists|before: Seq<u8>, behind: Seq<u8>| unknown_reply(a) == #[trigger] (before + a + behind),
{
    let before = "error: unknown command '".spec_bytes();
    let behind = "'\n".spec_bytes();
    assert(unknown_reply(a) == before + a + behind);
    if unknown_reply(a) == unknown_reply(b) {
        let n = before.len() as int;
        assert(unknown_reply(a).len() == n + a.len() + behind.len());
        assert(unknown_reply(b).len() == n + b.len() + behind.len());
        assert(unknown_reply(a).subrange(n, n + a.len()) =~= a);
        assert(unknown_reply(b).subrange(n, n + b.len()) =~= b);
    }
}

/// The command that wipes the store has eight letters.
pub proof fn law_clear_command()
    ensures
        clear_command() == seq![0x63u8, 0x6cu8, 0x65u8, 0x61u8, 0x72u8, 0x2du8, 0x64u8, 0x62u8],
{
    reveal_strlit("clear-db");
    vstd::string::is_ascii_spec_bytes("clear-db");
    assert(vstd::string::is_ascii("clear-db"));
    assert(clear_command() =~= seq![0x63u8, 0x6cu8, 0x65u8, 0x61u8, 0x72u8, 0x2du8, 0x64u8, 0x62u8]);
}

} // verus!
