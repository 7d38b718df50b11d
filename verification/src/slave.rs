use vstd::prelude::*;

use crate::buffered::ChunkReader;
use crate::connection::{flag_byte, flag_of_byte, Connection, ConnectionFlag, MAGIC_LENGTH};
use crate::errors::ClusterError;
use crate::path_sync::{
    encode_walk, is_walk_stream, newline_free, no_symlinks, valid_entries, PathSync, WalkEntry,
};

verus! {

/// A slave represents a server that can be connected only by the master
/// (ideally, the master has the right signed cert). It holds the address the
/// listener should be bound to; accepting connections is the caller's part,
/// and each accepted session's bytes are handled by `handle_incoming`.
pub struct Slave {
    pub address: String,
}

impl Slave {
    /// Create a new slave that should be bound to the given address.
    pub fn new(addr: String) -> (s: Slave)
        ensures
            s.address == addr,
    {
        Slave { address: addr }
    }
}

/// What one incoming request asked for, and what the slave did about it.
pub enum SlaveAction {
    /// A ping was answered with an acknowledgement.
    Pong,
    /// A pushed tree was received: the destination path and the decoded
    /// entries, ready to be materialized under that destination.
    ReceiveTree(Vec<u8>, Vec<WalkEntry>),
    /// A reserved or unhandled flag; the session is closed without a
    /// response.
    Ignored(ConnectionFlag),
}

/// Handle an incoming connection to the slave: read the session magic, read
/// one request flag, write the magic echo, and dispatch. A ping is answered
/// with the ok flag; a pushed tree is decoded and then answered with the ok
/// flag; reserved flags are ignored. The connection and the action taken are
/// handed back; any malformed input fails with the matching error.
#[verifier::rlimit(100)]
pub fn handle_incoming(reader: ChunkReader, writer: Vec<u8>) -> (r: Result<
    (Connection, SlaveAction),
    ClusterError,
>)
    requires
        reader.wf(),
    ensures
        reader.remaining().len() < MAGIC_LENGTH + 1 ==> (r matches Err(e) && e == ClusterError::Io),
        reader.remaining().len() >= MAGIC_LENGTH + 1 ==> ({
            let rem = reader.remaining();
            let magic = rem.subrange(0, MAGIC_LENGTH as int);
            let rest = rem.subrange(MAGIC_LENGTH + 1, rem.len() as int);
            &&& flag_of_byte(rem[MAGIC_LENGTH as int]) is None ==> (r matches Err(e) && e
                == ClusterError::UnknownFlag)
            &&& flag_of_byte(rem[MAGIC_LENGTH as int]) == Some(ConnectionFlag::MasterPing) ==> (
            r matches Ok(p) && p.1 is Pong && p.0.magic@ == magic && p.0.writer@ == writer@ + magic
                + seq![flag_byte(ConnectionFlag::SlaveOk)] && p.0.reader.data@ == reader.data@
                && p.0.reader.pos == reader.pos + MAGIC_LENGTH + 1)
            &&& flag_of_byte(rem[MAGIC_LENGTH as int]) == Some(ConnectionFlag::MasterSendsFile)
                ==> {
                &&& r matches Ok(p) ==> (p.1 matches SlaveAction::ReceiveTree(dest, entries)
                    && newline_free(dest@) && valid_entries(entries@, magic) && no_symlinks(
                    entries@,
                ) && rest == encode_walk(dest@, entries@, magic) && p.0.magic@ == magic
                    && p.0.writer@ == writer@ + magic + seq![flag_byte(ConnectionFlag::SlaveOk)]
                    && p.0.reader.data@ == reader.data@ && p.0.reader.pos == reader.data@.len())
                &&& is_walk_stream(rest, magic) ==> r is Ok
            }
            &&& (flag_of_byte(rem[MAGIC_LENGTH as int]) matches Some(f) && f
                != ConnectionFlag::MasterPing && f != ConnectionFlag::MasterSendsFile) ==> (
            r matches Ok(p) && p.1 matches SlaveAction::Ignored(g) && flag_of_byte(
                rem[MAGIC_LENGTH as int],
            ) == Some(g) && p.0.magic@ == magic && p.0.writer@ == writer@ + magic
                && p.0.reader.data@ == reader.data@ && p.0.reader.pos == reader.pos + MAGIC_LENGTH
                + 1)
        }),
{
    let conn = match Connection::create_for_stream(reader, writer, true) {
        Ok(c) => c,
        Err(e) => {
            return Err(e);
        },
    };
    let (conn, flag) = match conn.read_flag() {
        Ok(p) => p,
        Err(e) => {
            return Err(e);
        },
    };
    let conn = conn.write_magic();
    proof {
        assert(conn.reader.remaining() =~= reader.remaining().subrange(
            MAGIC_LENGTH + 1,
            reader.remaining().len() as int,
        ));
    }
    match flag {
        ConnectionFlag::MasterPing => {
            let conn = conn.write_flag(ConnectionFlag::SlaveOk);
            Ok((conn, SlaveAction::Pong))
        },
        ConnectionFlag::MasterSendsFile => {
            let (conn, dest, entries) = match PathSync(conn).stream_to_source() {
                Ok(t) => t,
                Err(e) => {
                    return Err(e);
                },
            };
            let conn = conn.write_flag(ConnectionFlag::SlaveOk);
            Ok((conn, SlaveAction::ReceiveTree(dest, entries)))
        },
        _ => {
            Ok((conn, SlaveAction::Ignored(flag)))
        },
    }
}

} // verus!
