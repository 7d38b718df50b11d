use vstd::prelude::*;

use crate::buffered::ChunkReader;
use crate::errors::ClusterError;
use crate::search::append_slice;
use rand::RngCore;

verus! {

/// Length of the random separator used in a connection for boundaries.
pub const MAGIC_LENGTH: usize = 16;

/// Different flags which represent the goal of the request/response.
#[derive(Clone, Copy, Debug, PartialEq, Eq, Structural)]
pub enum ConnectionFlag {
    MasterPing,
    SlaveOk,
    MasterWantsFile,
    MasterSendsFile,
    MasterWantsExecution,
}

/// The single wire byte that stands for a flag.
pub open spec fn flag_byte(f: ConnectionFlag) -> u8 {
    match f {
        ConnectionFlag::MasterPing => 0u8,
        ConnectionFlag::SlaveOk => 1u8,
        ConnectionFlag::MasterWantsFile => 2u8,
        ConnectionFlag::MasterSendsFile => 3u8,
        ConnectionFlag::MasterWantsExecution => 4u8,
    }
}

/// The flag a wire byte stands for, if any.
pub open spec fn flag_of_byte(b: u8) -> Option<ConnectionFlag> {
    if b == 0 {
        Some(ConnectionFlag::MasterPing)
    } else if b == 1 {
        Some(ConnectionFlag::SlaveOk)
    } else if b == 2 {
        Some(ConnectionFlag::MasterWantsFile)
    } else if b == 3 {
        Some(ConnectionFlag::MasterSendsFile)
    } else if b == 4 {
        Some(ConnectionFlag::MasterWantsExecution)
    } else {
        None
    }
}

pub fn flag_to_byte(f: ConnectionFlag) -> (b: u8)
    ensures
        b == flag_byte(f),
{
    match f {
        ConnectionFlag::MasterPing => 0u8,
        ConnectionFlag::SlaveOk => 1u8,
        ConnectionFlag::MasterWantsFile => 2u8,
        ConnectionFlag::MasterSendsFile => 3u8,
        ConnectionFlag::MasterWantsExecution => 4u8,
    }
}

pub fn flag_from_byte(b: u8) -> (r: Option<ConnectionFlag>)
    ensures
        r == flag_of_byte(b),
{
    if b == 0 {
        Some(ConnectionFlag::MasterPing)
    } else if b == 1 {
        Some(ConnectionFlag::SlaveOk)
    } else if b == 2 {
        Some(ConnectionFlag::MasterWantsFile)
    } else if b == 3 {
        Some(ConnectionFlag::MasterSendsFile)
    } else if b == 4 {
        Some(ConnectionFlag::MasterWantsExecution)
    } else {
        None
    }
}

/// Law: every valid flag survives the byte round trip.
pub proof fn lemma_flag_round_trip(f: ConnectionFlag)
    ensures
        flag_of_byte(flag_byte(f)) == Some(f),
{
}

/// Law: a byte fails to decode as a flag exactly when it lies outside the
/// enumeration.
pub proof fn lemma_flag_unknown(b: u8)
    ensures
        (flag_of_byte(b) is None) <==> b > 4,
{
}

/// Relies on `rand::thread_rng` and `rand::RngCore::fill_bytes`: the buffer is
/// filled with random bytes. Nothing is assumed of the values drawn, only
/// that sixteen bytes come back.
#[verifier::external_body]
fn random_magic() -> (r: Vec<u8>)
    ensures
        r@.len() == MAGIC_LENGTH,
{
    let mut buf = vec![0u8; MAGIC_LENGTH];
    rand::thread_rng().fill_bytes(&mut buf);
    buf
}

/// Represents a connection (for master/slave) over one byte stream: the
/// buffered read half, the write half, and the session magic. All methods
/// consume the connection and yield it back, so they can be chained, and an
/// in-flight operation has exclusive access.
pub struct Connection {
    pub reader: ChunkReader,
    pub writer: Vec<u8>,
    pub magic: Vec<u8>,
}

impl Connection {
    pub open spec fn wf(&self) -> bool {
        self.reader.wf() && self.magic@.len() == MAGIC_LENGTH
    }

    /// Create a connection object for an incoming/outgoing stream. If
    /// `expect_magic` is set, the connection is incoming and the sixteen
    /// "magic" bytes that begin every session are read from the stream and
    /// stored. Otherwise the connection is outgoing: fresh random magic is
    /// drawn and written as the first bytes on the wire.
    pub fn create_for_stream(reader: ChunkReader, writer: Vec<u8>, expect_magic: bool) -> (r:
        Result<Connection, ClusterError>)
        requires
            reader.wf(),
        ensures
            expect_magic ==> match r {
                Ok(c) => {
                    &&& reader.remaining().len() >= MAGIC_LENGTH
                    &&& c.magic@ == reader.remaining().subrange(0, MAGIC_LENGTH as int)
                    &&& c.reader.data@ == reader.data@
                    &&& c.reader.cap == reader.cap
                    &&& c.reader.pos == reader.pos + MAGIC_LENGTH
                    &&& c.writer@ == writer@
                    &&& c.wf()
                },
                Err(e) => reader.remaining().len() < MAGIC_LENGTH && e == ClusterError::Io,
            },
            !expect_magic ==> match r {
                Ok(c) => {
                    &&& c.magic@.len() == MAGIC_LENGTH
                    &&& c.writer@ == writer@ + c.magic@
                    &&& c.reader.data@ == reader.data@
                    &&& c.reader.cap == reader.cap
                    &&& c.reader.pos == reader.pos
                    &&& c.wf()
                },
                Err(_) => false,
            },
    {
        if expect_magic {
            let mut reader = reader;
            match reader.read_exact(MAGIC_LENGTH) {
                Ok(magic) => Ok(Connection { reader, writer, magic }),
                Err(e) => Err(e),
            }
        } else {
            let magic = random_magic();
            let c = Connection { reader, writer, magic };
            Ok(c.write_magic())
        }
    }

    /// Write bytes to the "writable half" of this connection.
    pub fn write_bytes(self, bytes: &[u8]) -> (out: Connection)
        ensures
            out.writer@ == self.writer@ + bytes@,
            out.reader == self.reader,
            out.magic@ == self.magic@,
    {
        let mut this = self;
        append_slice(&mut this.writer, bytes);
        this
    }

    /// Write the magic to this connection's stream.
    pub fn write_magic(self) -> (out: Connection)
        ensures
            out.writer@ == self.writer@ + self.magic@,
            out.reader == self.reader,
            out.magic@ == self.magic@,
    {
        let mut this = self;
        append_slice(&mut this.writer, this.magic.as_slice());
        this
    }

    /// Read the magic bytes from this connection. Note that this replaces the
    /// magic bytes that already exist in `self` (because only one set of
    /// bytes is used throughout a connection).
    pub fn read_magic(self) -> (r: Result<Connection, ClusterError>)
        requires
            self.wf(),
        ensures
            self.reader.remaining().len() >= MAGIC_LENGTH ==> match r {
                Ok(c) => {
                    &&& c.magic@ == self.reader.remaining().subrange(0, MAGIC_LENGTH as int)
                    &&& c.reader.data@ == self.reader.data@
                    &&& c.reader.cap == self.reader.cap
                    &&& c.reader.pos == self.reader.pos + MAGIC_LENGTH
                    &&& c.writer@ == self.writer@
                    &&& c.wf()
                },
                Err(_) => false,
            },
            self.reader.remaining().len() < MAGIC_LENGTH ==> (r matches Err(e) && e
                == ClusterError::Io),
    {
        let mut this = self;
        match this.reader.read_exact(MAGIC_LENGTH) {
            Ok(magic) => {
                this.magic = magic;
                Ok(this)
            },
            Err(e) => Err(e),
        }
    }

    /// Read a flag from this stream: one byte, validated against the flag
    /// enumeration. An out-of-range byte is consumed and fails the session
    /// with an "unknown flag" error; an empty stream fails with an I/O error.
    pub fn read_flag(self) -> (r: Result<(Connection, ConnectionFlag), ClusterError>)
        requires
            self.wf(),
        ensures
            self.reader.remaining().len() == 0 ==> (r matches Err(e) && e == ClusterError::Io),
            self.reader.remaining().len() >= 1 ==> match r {
                Ok(p) => {
                    &&& flag_of_byte(self.reader.remaining()[0]) == Some(p.1)
                    &&& p.0.reader.data@ == self.reader.data@
                    &&& p.0.reader.cap == self.reader.cap
                    &&& p.0.reader.pos == self.reader.pos + 1
                    &&& p.0.writer@ == self.writer@
                    &&& p.0.magic@ == self.magic@
                    &&& p.0.wf()
                },
                Err(e) => flag_of_byte(self.reader.remaining()[0]) is None && e
                    == ClusterError::UnknownFlag,
            },
    {
        let mut this = self;
        match this.reader.read_exact(1) {
            Ok(b) => {
                match flag_from_byte(b[0]) {
                    Some(f) => Ok((this, f)),
                    None => Err(ClusterError::UnknownFlag),
                }
            },
            Err(e) => Err(e),
        }
    }

    /// Write the given flag to this stream.
    pub fn write_flag(self, flag: ConnectionFlag) -> (out: Connection)
        ensures
            out.writer@ == self.writer@ + seq![flag_byte(flag)],
            out.reader == self.reader,
            out.magic@ == self.magic@,
    {
        let mut this = self;
        let b = flag_to_byte(flag);
        this.writer.push(b);
        proof {
            assert(this.writer@ =~= self.writer@ + seq![flag_byte(flag)]);
        }
        this
    }
}

/// Law: the magic read by the responder equals the magic written by the
/// initiator. The initiator's `create_for_stream` puts its sixteen magic
/// bytes first on the wire, and the responder's `create_for_stream` stores
/// the first sixteen bytes of its source; when the responder's source begins
/// with what the initiator wrote, the stored bytes are the initiator's magic,
/// whatever random value was drawn.
pub proof fn lemma_magic_exchange(magic: Seq<u8>, rest: Seq<u8>)
    requires
        magic.len() == MAGIC_LENGTH,
    ensures
        (magic + rest).subrange(0, MAGIC_LENGTH as int) == magic,
{
    assert((magic + rest).subrange(0, MAGIC_LENGTH as int) =~= magic);
}

} // verus!
