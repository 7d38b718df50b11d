use vstd::prelude::*;

verus! {

/// Default address for the listener.
pub const DEFAULT_ADDRESS: &'static str = "0.0.0.0:2753";

/// One step of the DJB2 hash: the old state times 33, plus the byte, modulo
/// the 64-bit range.
pub open spec fn djb2_step(h: u64, b: u8) -> u64 {
    (((h as int) * 33 + b) % 0x10000000000000000) as u64
}

/// The DJB2 hash of a byte sequence folded onto starting state `h0`.
pub open spec fn djb2(h0: u64, s: Seq<u8>) -> u64
    decreases s.len(),
{
    if s.len() == 0 {
        h0
    } else {
        djb2_step(djb2(h0, s.drop_last()), s.last())
    }
}

/// The DJB2 starting state.
pub const DJB2_MAGIC: u64 = 5381;

/// Based on DJB2 - http://www.cse.yorku.ca/~oz/hash.html
///
/// This is very simple and very fast. For its magic number (5381), it
/// produces unique hashes for all numbers in the range 0..8448 (regardless of
/// their types). Anything beyond that range can be a collision.
pub struct DjB2(pub u64);

impl DjB2 {
    pub fn new() -> (h: DjB2)
        ensures
            h.0 == DJB2_MAGIC,
    {
        DjB2(DJB2_MAGIC)
    }

    /// Fold the given bytes into the state.
    pub fn write(&mut self, bytes: &[u8])
        ensures
            final(self).0 == djb2(old(self).0, bytes@),
    {
        let n = bytes.len();
        let mut i: usize = 0;
        while i < n
            invariant
                n == bytes@.len(),
                0 <= i <= n,
                self.0 == djb2(old(self).0, bytes@.subrange(0, i as int)),
            decreases n - i,
        {
            let b = bytes[i];
            let h = self.0;
            let stepped: u64 = (((h as u128) * 33 + (b as u128)) % 0x10000000000000000u128) as u64;
            self.0 = stepped;
            proof {
                assert(stepped == djb2_step(h, b));
                assert(bytes@.subrange(0, i + 1).drop_last() =~= bytes@.subrange(0, i as int));
                assert(bytes@.subrange(0, i + 1).last() == bytes@[i as int]);
            }
            i += 1;
        }
        proof {
            assert(bytes@.subrange(0, n as int) =~= bytes@);
        }
    }

    /// The current hash state.
    pub fn finish(&self) -> (r: u64)
        ensures
            r == self.0,
    {
        self.0
    }
}

/// One step of argument splitting, processing one byte against the current
/// parts and the currently open quote: a quote byte matching the open quote
/// closes it and is dropped; a space outside quotes starts a new part, which
/// begins with the space itself; any other byte is appended to the last part.
pub open spec fn split_args_step(acc: Seq<Seq<u8>>, open: Option<u8>, byte: u8) -> (
    Seq<Seq<u8>>,
    Option<u8>,
)
    recommends
        acc.len() >= 1,
{
    if (byte == 39 || byte == 34) && open == Some(byte) {
        (acc, None::<u8>)
    } else if byte == 32 && open is None {
        (acc.push(seq![byte]), open)
    } else {
        (acc.update(acc.len() - 1, acc.last().push(byte)), open)
    }
}

/// The parts and quote state after the first `i` bytes.
pub open spec fn split_args_scan(bytes: Seq<u8>, i: int) -> (Seq<Seq<u8>>, Option<u8>)
    decreases i,
{
    if i <= 0 {
        (seq![Seq::<u8>::empty()], None::<u8>)
    } else {
        split_args_step(
            split_args_scan(bytes, i - 1).0,
            split_args_scan(bytes, i - 1).1,
            bytes[i - 1],
        )
    }
}

/// What `split_args` returns: the scanned parts, with an empty part appended
/// when the input produced exactly one nonempty part.
pub open spec fn split_args_spec(bytes: Seq<u8>) -> Seq<Seq<u8>> {
    let parts = split_args_scan(bytes, bytes.len() as int).0;
    if parts.len() == 1 && parts[0].len() > 0 {
        parts.push(Seq::<u8>::empty())
    } else {
        parts
    }
}

proof fn lemma_split_args_scan_len(bytes: Seq<u8>, i: int)
    requires
        0 <= i <= bytes.len(),
    ensures
        split_args_scan(bytes, i).0.len() >= 1,
    decreases i,
{
    if i > 0 {
        lemma_split_args_scan_len(bytes, i - 1);
    }
}

/// Split a raw command line into arguments at spaces, honouring the quote
/// state exactly as `split_args_spec` describes it.
#[verifier::loop_isolation(false)]
pub fn split_args(bytes: Vec<u8>) -> (r: Vec<Vec<u8>>)
    ensures
        r@.len() == split_args_spec(bytes@).len(),
        forall|k: int| 0 <= k < r@.len() ==> r@[k]@ == split_args_spec(bytes@)[k],
{
    let mut parts: Vec<Vec<u8>> = Vec::new();
    parts.push(Vec::new());
    let mut last_open: Option<u8> = None;
    let n = bytes.len();
    let mut i: usize = 0;
    proof {
        assert(parts@.len() == split_args_scan(bytes@, 0).0.len());
        assert forall|k: int| 0 <= k < parts@.len() implies parts@[k]@ == split_args_scan(
            bytes@,
            0,
        ).0[k] by {
            assert(parts@[0]@ =~= Seq::<u8>::empty());
        }
    }
    while i < n
        invariant
            0 <= i <= n,
            parts@.len() >= 1,
            parts@.len() == split_args_scan(bytes@, i as int).0.len(),
            forall|k: int|
                0 <= k < parts@.len() ==> parts@[k]@ == split_args_scan(bytes@, i as int).0[k],
            last_open == split_args_scan(bytes@, i as int).1,
        decreases n - i,
    {
        let byte = bytes[i];
        let ghost acc = split_args_scan(bytes@, i as int).0;
        let ghost open = split_args_scan(bytes@, i as int).1;
        proof {
            lemma_split_args_scan_len(bytes@, i as int);
        }
        if byte == 39 || byte == 34 {
            match last_open {
                Some(b) if byte == b => {
                    last_open = None;
                    proof {
                        assert(split_args_scan(bytes@, i + 1).0 == acc);
                    }
                    i += 1;
                    continue ;
                },
                _ => {},
            }
        } else if byte == 32 && last_open.is_none() {
            parts.push(Vec::new());
        }
        let last = match parts.pop() {
            Some(v) => v,
            None => {
                proof {
                    assert(false);
                }
                Vec::new()
            },
        };
        let mut last = last;
        last.push(byte);
        parts.push(last);
        proof {
            let stepped = split_args_scan(bytes@, i + 1).0;
            assert(stepped == split_args_step(acc, open, bytes@[i as int]).0);
            assert(parts@.len() == stepped.len());
            assert forall|k: int| 0 <= k < parts@.len() implies parts@[k]@ == stepped[k] by {
                if byte == 32 && open is None {
                    if k < parts@.len() - 1 {
                        assert(parts@[k]@ == acc[k]);
                    } else {
                        assert(parts@[k]@ =~= seq![byte]);
                    }
                } else {
                    if k < parts@.len() - 1 {
                        assert(parts@[k]@ == acc[k]);
                    } else {
                        assert(parts@[k]@ =~= acc.last().push(byte));
                    }
                }
            }
        }
        i += 1;
    }
    proof {
        lemma_split_args_scan_len(bytes@, n as int);
    }
    if parts.len() == 1 {
        let first_len = parts[0].len();
        if first_len > 0 {
            parts.push(Vec::new());
            proof {
                assert(parts@[1]@ =~= Seq::<u8>::empty());
            }
        }
    }
    parts
}

} // verus!
