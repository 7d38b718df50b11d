use vstd::prelude::*;

use crate::utils::{djb2, split_args, split_args_spec, DjB2, DJB2_MAGIC};
use vstd::bytes::{
    lemma_auto_spec_u64_to_from_le_bytes, spec_u64_from_le_bytes, spec_u64_to_le_bytes,
    u64_from_le_bytes, u64_to_le_bytes,
};
use vstd::string::StringExecFns;

verus! {

/// The request kinds of the plain TCP protocol. Each is identified on the
/// wire by the DJB2 hash of its index, written as eight little-endian bytes.
#[derive(Clone, Copy, Debug, PartialEq, Eq, Structural)]
pub enum ProcessType {
    Ping,
    Execute,
    Fetch,
    Write,
    Shutdown,
}

pub open spec fn process_index(t: ProcessType) -> u64 {
    match t {
        ProcessType::Ping => 0u64,
        ProcessType::Execute => 1u64,
        ProcessType::Fetch => 2u64,
        ProcessType::Write => 3u64,
        ProcessType::Shutdown => 4u64,
    }
}

/// The wire tag of a request kind: the DJB2 hash of its index's eight
/// little-endian bytes.
pub open spec fn process_tag(t: ProcessType) -> u64 {
    djb2(DJB2_MAGIC, spec_u64_to_le_bytes(process_index(t)))
}

/// The eight bytes that announce a request kind on the wire.
pub open spec fn process_tag_bytes(t: ProcessType) -> Seq<u8> {
    spec_u64_to_le_bytes(process_tag(t))
}

/// The request kind a wire tag stands for, if any: the tags of the first
/// four kinds are recognized, in order; a shutdown tag, like any unknown
/// value, is not.
pub open spec fn process_of_tag(h: u64) -> Option<ProcessType> {
    if h == process_tag(ProcessType::Ping) {
        Some(ProcessType::Ping)
    } else if h == process_tag(ProcessType::Execute) {
        Some(ProcessType::Execute)
    } else if h == process_tag(ProcessType::Fetch) {
        Some(ProcessType::Fetch)
    } else if h == process_tag(ProcessType::Write) {
        Some(ProcessType::Write)
    } else {
        None
    }
}

impl ProcessType {
    /// The wire tag of this request kind.
    pub fn tag(&self) -> (r: u64)
        ensures
            r == process_tag(*self),
    {
        let idx: u64 = match self {
            ProcessType::Ping => 0u64,
            ProcessType::Execute => 1u64,
            ProcessType::Fetch => 2u64,
            ProcessType::Write => 3u64,
            ProcessType::Shutdown => 4u64,
        };
        let idx_bytes = u64_to_le_bytes(idx);
        let mut h = DjB2::new();
        h.write(idx_bytes.as_slice());
        h.finish()
    }

    /// The eight bytes that announce this request kind on the wire.
    pub fn tag_bytes(&self) -> (r: Vec<u8>)
        ensures
            r@ == process_tag_bytes(*self),
            r@.len() == 8,
    {
        u64_to_le_bytes(self.tag())
    }

    /// Recognize a request kind from its eight wire bytes.
    pub fn from_tag_bytes(b: &[u8]) -> (r: Result<ProcessType, String>)
        requires
            b@.len() == 8,
        ensures
            match r {
                Ok(t) => process_of_tag(spec_u64_from_le_bytes(b@)) == Some(t),
                Err(_) => process_of_tag(spec_u64_from_le_bytes(b@)) is None,
            },
    {
        let h = u64_from_le_bytes(b);
        if h == ProcessType::Ping.tag() {
            Ok(ProcessType::Ping)
        } else if h == ProcessType::Execute.tag() {
            Ok(ProcessType::Execute)
        } else if h == ProcessType::Fetch.tag() {
            Ok(ProcessType::Fetch)
        } else if h == ProcessType::Write.tag() {
            Ok(ProcessType::Write)
        } else {
            Err(String::from_str("Invalid process type in stream"))
        }
    }
}

/// Relies on `bincode::serialize` (bincode 1.3, default options: fixed-width
/// integers, little endian, no size limit): a byte vector serializes as its
/// 64-bit little-endian length followed by its bytes, and serializing into a
/// fresh vector cannot fail.
#[verifier::external_body]
fn bincode_encode_bytes(data: &Vec<u8>) -> (r: Vec<u8>)
    ensures
        r@ == spec_u64_to_le_bytes(data@.len() as u64) + data@,
{
    bincode::serialize(data).unwrap_or_default()
}

/// Relies on `bincode::deserialize` (bincode 1.3, default options): a byte
/// vector deserializes by reading a 64-bit little-endian length and then
/// that many bytes; trailing bytes are allowed and ignored; it fails exactly
/// when fewer bytes than needed are present.
#[verifier::external_body]
fn bincode_decode_bytes(data: &[u8]) -> (r: Option<Vec<u8>>)
    ensures
        match r {
            Some(v) => {
                &&& data@.len() >= 8
                &&& data@.subrange(0, 8) == spec_u64_to_le_bytes(v@.len() as u64)
                &&& 8 + v@.len() <= data@.len()
                &&& v@ == data@.subrange(8, 8 + v@.len() as int)
            },
            None => data@.len() < 8 || data@.len() < 8 + spec_u64_from_le_bytes(
                data@.subrange(0, 8),
            ),
        },
{
    bincode::deserialize::<Vec<u8>>(data).ok()
}

/// The full wire form of an execute request: the execute tag, then the
/// serialized command line.
pub open spec fn execute_request(command: Seq<u8>) -> Seq<u8> {
    process_tag_bytes(ProcessType::Execute) + spec_u64_to_le_bytes(command.len() as u64) + command
}

/// Encode an execute request for one slave: the execute tag followed by the
/// serialized command bytes.
pub fn execute_request_bytes(command: &Vec<u8>) -> (r: Vec<u8>)
    requires
        command@.len() <= u64::MAX,
    ensures
        r@ == execute_request(command@),
{
    let mut r = ProcessType::Execute.tag_bytes();
    let payload = bincode_encode_bytes(command);
    crate::search::append_slice(&mut r, payload.as_slice());
    proof {
        assert(r@ =~= execute_request(command@));
    }
    r
}

/// Parse an execute request: check the tag, deserialize the command bytes,
/// and split them into arguments. Succeeds exactly when the request starts
/// with the execute tag and carries at least as many bytes as its serialized
/// command announces.
pub fn parse_execute_request(data: &[u8]) -> (r: Result<Vec<Vec<u8>>, String>)
    ensures
        ({
            let well_formed = data@.len() >= 16 && data@.subrange(0, 8) == process_tag_bytes(
                ProcessType::Execute,
            ) && 16 + spec_u64_from_le_bytes(data@.subrange(8, 16)) <= data@.len();
            let payload = data@.subrange(
                16,
                16 + spec_u64_from_le_bytes(data@.subrange(8, 16)) as int,
            );
            &&& r is Ok <==> well_formed
            &&& r matches Ok(args) ==> (args@.len() == split_args_spec(payload).len() && forall|
                k: int,
            |
                0 <= k < args@.len() ==> args@[k]@ == split_args_spec(payload)[k])
        }),
{
    proof {
        lemma_auto_spec_u64_to_from_le_bytes();
    }
    if data.len() < 16 {
        return Err(String::from_str("Invalid process type in stream"));
    }
    let tag = ProcessType::Execute.tag_bytes();
    if !crate::search::match_at(data, tag.as_slice(), 0) {
        return Err(String::from_str("Invalid process type in stream"));
    }
    proof {
        assert(data@.subrange(0, 8) == process_tag_bytes(ProcessType::Execute));
    }
    let rest = vstd::slice::slice_subrange(data, 8, data.len());
    match bincode_decode_bytes(rest) {
        Some(payload) => {
            proof {
                assert(rest@ =~= data@.subrange(8, data@.len() as int));
                assert(data@.subrange(8, 16) =~= rest@.subrange(0, 8));
                assert(spec_u64_from_le_bytes(data@.subrange(8, 16)) == payload@.len());
                assert(payload@ =~= data@.subrange(16, 16 + payload@.len() as int));
            }
            Ok(split_args(payload))
        },
        None => {
            proof {
                assert(rest@ =~= data@.subrange(8, data@.len() as int));
                assert(data@.subrange(8, 16) =~= rest@.subrange(0, 8));
            }
            Err(String::from_str("Cannot deserialize data from stream"))
        },
    }
}

/// Master side of the plain TCP protocol: the set of node addresses that
/// have been added, each one held at most once.
pub struct Cluster {
    pub addrs: Vec<String>,
}

impl Cluster {
    /// No address is held twice.
    pub open spec fn wf(&self) -> bool {
        forall|i: int, j: int|
            0 <= i < j < self.addrs@.len() ==> (#[trigger] self.addrs@[i])@ != (
            #[trigger] self.addrs@[j])@
    }

    /// The cluster knows this address.
    pub open spec fn has_addr(&self, a: Seq<char>) -> bool {
        exists|i: int| 0 <= i < self.addrs@.len() && (#[trigger] self.addrs@[i])@ == a
    }

    pub fn new() -> (c: Cluster)
        ensures
            c.addrs@.len() == 0,
            c.wf(),
    {
        Cluster { addrs: Vec::new() }
    }

    /// Whether the address was already added.
    fn find_addr(&self, addr: &String) -> (r: bool)
        ensures
            r == self.has_addr(addr@),
    {
        let n = self.addrs.len();
        let mut i: usize = 0;
        while i < n
            invariant
                n == self.addrs@.len(),
                0 <= i <= n,
                forall|k: int| 0 <= k < i ==> (#[trigger] self.addrs@[k])@ != addr@,
            decreases n - i,
        {
            if self.addrs[i].eq(addr) {
                proof {
                    assert(self.addrs@[i as int]@ == addr@);
                    assert(self.has_addr(addr@));
                }
                return true;
            }
            proof {
                assert(self.addrs@[i as int]@ != addr@);
            }
            i += 1;
        }
        false
    }

    /// Add a node that answered the given ping response byte: an address
    /// already known is kept as it is; a new one is added exactly when the
    /// response signals success (any nonzero byte).
    pub fn add_node(&mut self, addr: &String, response: u8) -> (r: Result<(), String>)
        requires
            old(self).wf(),
        ensures
            final(self).wf(),
            old(self).has_addr(addr@) ==> (r is Ok && final(self).addrs@ == old(self).addrs@),
            !old(self).has_addr(addr@) && response > 0 ==> (r is Ok && final(self).addrs@.len()
                == old(self).addrs@.len() + 1 && (forall|k: int|
                0 <= k < old(self).addrs@.len() ==> final(self).addrs@[k] == old(self).addrs@[k])
                && final(self).addrs@.last()@ == addr@),
            !old(self).has_addr(addr@) && response == 0 ==> (r is Err && final(self).addrs@ == old(
                self,
            ).addrs@),
    {
        if self.find_addr(addr) {
            return Ok(());
        }
        match self.ping_addr(addr, response) {
            Ok(_) => {
                self.addrs.push(addr.clone());
                proof {
                    assert(self.addrs@.last()@ == addr@);
                    assert forall|i: int, j: int|
                        0 <= i < j < self.addrs@.len() implies (#[trigger] self.addrs@[i])@ != (
                    #[trigger] self.addrs@[j])@ by {
                        if j == self.addrs@.len() - 1 {
                            assert(self.addrs@[i] == old(self).addrs@[i]);
                        }
                    }
                }
                Ok(())
            },
            Err(e) => Err(e),
        }
    }

    /// Judge one node's ping response: success exactly when the response
    /// byte is nonzero.
    pub fn ping_addr(&self, addr: &String, response: u8) -> (r: Result<(), String>)
        ensures
            r is Ok <==> response > 0,
    {
        if response > 0 {
            Ok(())
        } else {
            let mut msg = String::from_str("Failure receiving message from address: ");
            msg.append(addr.as_str());
            Err(msg)
        }
    }

    /// Judge every node's ping response, one response byte per address, in
    /// order: success exactly when every node answered with success.
    pub fn ping_all(&self, responses: &Vec<u8>) -> (r: Result<(), String>)
        requires
            responses@.len() == self.addrs@.len(),
        ensures
            r is Ok <==> (forall|i: int| 0 <= i < responses@.len() ==> responses@[i] > 0),
    {
        let n = responses.len();
        let mut i: usize = 0;
        while i < n
            invariant
                n == responses@.len(),
                n == self.addrs@.len(),
                0 <= i <= n,
                forall|k: int| 0 <= k < i ==> responses@[k] > 0,
            decreases n - i,
        {
            if responses[i] == 0 {
                let mut msg = String::from_str("Failure receiving message from address: ");
                msg.append(self.addrs[i].as_str());
                return Err(msg);
            }
            i += 1;
        }
        Ok(())
    }

    /// Encode an execute request for every known node, in address order; the
    /// caller delivers each one to its node.
    pub fn execute_all(&self, command: &Vec<u8>) -> (r: Vec<Vec<u8>>)
        requires
            command@.len() <= u64::MAX,
        ensures
            r@.len() == self.addrs@.len(),
            forall|i: int| 0 <= i < r@.len() ==> (#[trigger] r@[i])@ == execute_request(command@),
    {
        let n = self.addrs.len();
        let mut out: Vec<Vec<u8>> = Vec::new();
        let mut i: usize = 0;
        while i < n
            invariant
                command@.len() <= u64::MAX,
                n == self.addrs@.len(),
                0 <= i <= n,
                out@.len() == i,
                forall|k: int| 0 <= k < i ==> (#[trigger] out@[k])@ == execute_request(command@),
            decreases n - i,
        {
            out.push(execute_request_bytes(command));
            i += 1;
        }
        out
    }
}

} // verus!
