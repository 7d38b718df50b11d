use vstd::prelude::*;

use crate::connection::{flag_byte, Connection, ConnectionFlag, MAGIC_LENGTH};
use crate::errors::ClusterError;
use crate::path_sync::{encode_walk, PathSync, WalkEntry};

verus! {

/// Master (i.e., client) which connects to slave machines. As long as this
/// struct exists, the sessions added are kept alive and can be re-used for
/// further messages. Slot `i` holds the live session for connection id `i`,
/// or nothing while an operation is in flight or after one failed.
pub struct Master {
    pub slaves: Vec<Option<Connection>>,
    pub addrs: Vec<String>,
}

impl Master {
    pub open spec fn wf(&self) -> bool {
        &&& self.slaves@.len() == self.addrs@.len()
        &&& forall|i: int|
            0 <= i < self.slaves@.len() ==> ((#[trigger] self.slaves@[i]) matches Some(c) ==> c.wf())
    }

    /// Create a new instance of master.
    pub fn new() -> (m: Master)
        ensures
            m.slaves@.len() == 0,
            m.addrs@.len() == 0,
            m.wf(),
    {
        Master { slaves: Vec::new(), addrs: Vec::new() }
    }

    /// List of addresses to which connections were added.
    pub fn addrs(&self) -> (r: &Vec<String>)
        ensures
            r == &self.addrs,
    {
        &self.addrs
    }

    /// Record an established session under the next free ID, which is
    /// returned and stays stable for the lifetime of the master.
    pub fn add_slave(&mut self, addr: String, conn: Connection) -> (id: usize)
        requires
            old(self).wf(),
            conn.wf(),
        ensures
            id == old(self).slaves@.len(),
            final(self).slaves@ == old(self).slaves@.push(Some(conn)),
            final(self).addrs@ == old(self).addrs@.push(addr),
            final(self).wf(),
    {
        let id = self.slaves.len();
        self.slaves.push(Some(conn));
        self.addrs.push(addr);
        id
    }

    /// Take the session out of slot `id`, leaving the slot empty. Fails with
    /// `InvalidConnectionId` when the id is out of range or the slot is
    /// already empty (an earlier operation failed and dropped the session).
    fn take_conn(&mut self, id: usize) -> (r: Result<Connection, ClusterError>)
        requires
            old(self).wf(),
        ensures
            final(self).addrs@ == old(self).addrs@,
            final(self).wf(),
            r matches Ok(c) ==> {
                &&& id < old(self).slaves@.len()
                &&& old(self).slaves@[id as int] == Some(c)
                &&& c.wf()
                &&& final(self).slaves@ == old(self).slaves@.update(id as int, None)
            },
            r matches Err(e) ==> {
                &&& e == ClusterError::InvalidConnectionId
                &&& (id >= old(self).slaves@.len() || old(self).slaves@[id as int] is None)
                &&& final(self).slaves@ == old(self).slaves@
            },
    {
        if id >= self.slaves.len() {
            return Err(ClusterError::InvalidConnectionId);
        }
        let taken = self.slaves.remove(id);
        match taken {
            None => {
                self.slaves.insert(id, None);
                proof {
                    assert(self.slaves@ =~= old(self).slaves@);
                }
                Err(ClusterError::InvalidConnectionId)
            },
            Some(c) => {
                self.slaves.insert(id, None);
                proof {
                    assert(self.slaves@ =~= old(self).slaves@.update(id as int, None));
                }
                Ok(c)
            },
        }
    }

    /// Put a session back into slot `id`.
    fn put_conn(&mut self, id: usize, c: Connection)
        requires
            old(self).wf(),
            id < old(self).slaves@.len(),
            c.wf(),
        ensures
            final(self).addrs@ == old(self).addrs@,
            final(self).slaves@ == old(self).slaves@.update(id as int, Some(c)),
            final(self).wf(),
    {
        let _ = self.slaves.remove(id);
        self.slaves.insert(id, Some(c));
        proof {
            assert(self.slaves@ =~= old(self).slaves@.update(id as int, Some(c)));
        }
    }

    /// Ping the session in slot `id`: write the ping flag, then read the
    /// magic echo and the response flag that the slave answers with. Succeeds
    /// exactly when the slot holds a session whose source still carries a
    /// full magic echo and a valid response flag; the response is accepted
    /// whatever valid flag it is. On a failed read the slot is left empty,
    /// which later operations detect.
    pub fn ping(&mut self, conn_id: usize) -> (r: Result<(), ClusterError>)
        requires
            old(self).wf(),
        ensures
            final(self).addrs@ == old(self).addrs@,
            final(self).wf(),
            (conn_id >= old(self).slaves@.len() || old(self).slaves@[conn_id as int] is None) ==> (
            r matches Err(e) && e == ClusterError::InvalidConnectionId && final(self).slaves@
                == old(self).slaves@),
            (conn_id < old(self).slaves@.len() && old(self).slaves@[conn_id as int] is Some)
                ==> ({
                let c = old(self).slaves@[conn_id as int]->Some_0;
                let rem = c.reader.remaining();
                let w1 = c.writer@;
                let dat = c.reader.data@;
                let cp = c.reader.cap;
                let ps = c.reader.pos;
                &&& (r is Ok <==> rem.len() >= MAGIC_LENGTH + 1 && crate::connection::flag_of_byte(
                    rem[MAGIC_LENGTH as int],
                ) is Some)
                &&& r is Ok ==> (final(self).slaves@[conn_id as int] matches Some(c2)
                    && c2.writer@ == w1 + seq![flag_byte(ConnectionFlag::MasterPing)]
                    && c2.magic@ == rem.subrange(0, MAGIC_LENGTH as int)
                    && c2.reader.data@ == dat
                    && c2.reader.cap == cp
                    && c2.reader.pos == ps + MAGIC_LENGTH + 1)
                &&& r is Ok ==> final(self).slaves@ =~= old(self).slaves@.update(
                    conn_id as int,
                    final(self).slaves@[conn_id as int],
                )
                &&& r matches Err(e) ==> (final(self).slaves@ == old(self).slaves@.update(
                    conn_id as int,
                    None,
                ) && (rem.len() < MAGIC_LENGTH + 1 ==> e == ClusterError::Io) && (rem.len()
                    >= MAGIC_LENGTH + 1 ==> e == ClusterError::UnknownFlag))
            }),
    {
        let conn = match self.take_conn(conn_id) {
            Ok(c) => c,
            Err(e) => {
                return Err(e);
            },
        };
        let conn = conn.write_flag(ConnectionFlag::MasterPing);
        let conn = match conn.read_magic() {
            Ok(c) => c,
            Err(e) => {
                return Err(e);
            },
        };
        match conn.read_flag() {
            Ok((conn, _flag)) => {
                self.put_conn(conn_id, conn);
                proof {
                    assert(self.slaves@ =~= old(self).slaves@.update(
                        conn_id as int,
                        self.slaves@[conn_id as int],
                    ));
                }
                Ok(())
            },
            Err(e) => {
                Err(e)
            },
        }
    }

    /// Stream a walked tree to the slave in slot `id`: write the send-file
    /// flag, then the full push wire format (destination path, then each
    /// entry), then read the magic echo and the response flag. Succeeds
    /// exactly when the slot holds a session whose source still carries a
    /// full magic echo and a valid response flag. On a failed read the slot
    /// is left empty, which later operations detect.
    pub fn send_file(&mut self, conn_id: usize, entries: &Vec<WalkEntry>, dest: &[u8]) -> (r:
        Result<(), ClusterError>)
        requires
            old(self).wf(),
        ensures
            final(self).addrs@ == old(self).addrs@,
            final(self).wf(),
            (conn_id >= old(self).slaves@.len() || old(self).slaves@[conn_id as int] is None) ==> (
            r matches Err(e) && e == ClusterError::InvalidConnectionId && final(self).slaves@
                == old(self).slaves@),
            (conn_id < old(self).slaves@.len() && old(self).slaves@[conn_id as int] is Some)
                ==> ({
                let c = old(self).slaves@[conn_id as int]->Some_0;
                let rem = c.reader.remaining();
                let w1 = c.writer@;
                let m1 = c.magic@;
                let dat = c.reader.data@;
                let cp = c.reader.cap;
                let ps = c.reader.pos;
                &&& (r is Ok <==> rem.len() >= MAGIC_LENGTH + 1 && crate::connection::flag_of_byte(
                    rem[MAGIC_LENGTH as int],
                ) is Some)
                &&& r is Ok ==> (final(self).slaves@[conn_id as int] matches Some(c2)
                    && c2.writer@ == w1 + seq![flag_byte(ConnectionFlag::MasterSendsFile)]
                        + encode_walk(dest@, entries@, m1)
                    && c2.magic@ == rem.subrange(0, MAGIC_LENGTH as int)
                    && c2.reader.data@ == dat
                    && c2.reader.cap == cp
                    && c2.reader.pos == ps + MAGIC_LENGTH + 1)
                &&& r is Ok ==> final(self).slaves@ =~= old(self).slaves@.update(
                    conn_id as int,
                    final(self).slaves@[conn_id as int],
                )
                &&& r matches Err(e) ==> (final(self).slaves@ == old(self).slaves@.update(
                    conn_id as int,
                    None,
                ) && (rem.len() < MAGIC_LENGTH + 1 ==> e == ClusterError::Io) && (rem.len()
                    >= MAGIC_LENGTH + 1 ==> e == ClusterError::UnknownFlag))
            }),
    {
        let conn = match self.take_conn(conn_id) {
            Ok(c) => c,
            Err(e) => {
                return Err(e);
            },
        };
        let conn = conn.write_flag(ConnectionFlag::MasterSendsFile);
        let conn = PathSync(conn).source_to_stream(dest, entries);
        let conn = match conn.read_magic() {
            Ok(c) => c,
            Err(e) => {
                return Err(e);
            },
        };
        match conn.read_flag() {
            Ok((conn, _flag)) => {
                self.put_conn(conn_id, conn);
                proof {
                    assert(self.slaves@ =~= old(self).slaves@.update(
                        conn_id as int,
                        self.slaves@[conn_id as int],
                    ));
                }
                Ok(())
            },
            Err(e) => {
                Err(e)
            },
        }
    }
}

} // verus!
