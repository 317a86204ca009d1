//! The key record: an opaque payload stamped with a creation timestamp
//! (seconds since the epoch), immutable once built. A builder stamps the
//! timestamp — an explicit one, or the clock's — before the record reaches
//! a store.

use vstd::prelude::*;
use vstd::bytes::lemma_auto_spec_u64_to_from_le_bytes;
use vstd::bytes::spec_u64_from_le_bytes;
use vstd::bytes::spec_u64_to_le_bytes;
use rand::RngCore;
use crate::codec::Wire;

verus! {

/// Failure while building a key record.
#[derive(Debug)]
pub enum Error {
    /// The clock could not supply a timestamp.
    Timestamp,
    /// The random source could not supply key material.
    Rand,
}

/// Collects the payload and an optional creation timestamp for a key record.
pub struct KeyBuilder<Data> {
    data: Data,
    created: Option<u64>,
}

impl<Data> KeyBuilder<Data> {
    /// The payload this builder holds.
    pub closed spec fn data_spec(&self) -> Data {
        self.data
    }

    /// The explicit creation timestamp, if one was set.
    pub closed spec fn created_spec(&self) -> Option<u64> {
        self.created
    }

    /// Sets an explicit creation timestamp.
    pub fn set_created(&mut self, created: u64)
        ensures
            final(self).created_spec() == Some(created),
            final(self).data_spec() == old(self).data_spec(),
    {
        self.created = Some(created);
    }

    /// Finishes the record against a given clock reading: the record keeps
    /// the payload and is stamped with the explicit timestamp if one was
    /// set, else with `now`. Never fails.
    pub fn build_at(self, now: u64) -> (r: Key<Data>)
        ensures
            r.data_spec() == self.data_spec(),
            r.created_spec() == (match self.created_spec() {
                Some(c) => c,
                None => now,
            }),
    {
        let created = match self.created {
            Some(v) => v,
            None => now,
        };
        Key { data: self.data, created }
    }

    /// Finishes the record. With an explicit timestamp this always
    /// succeeds and stamps exactly that timestamp; without one it reads
    /// the clock and stamps its seconds since the epoch (the stamping
    /// itself is [`Self::build_at`], with the clock reading as its
    /// argument), failing only when the clock cannot supply them.
    pub fn build(self) -> (r: Result<Key<Data>, Error>)
        ensures
            r matches Ok(k) ==> k.data_spec() == self.data_spec(),
            self.created_spec() matches Some(c) ==> (r matches Ok(k)
                && k.created_spec() == c),
            r matches Err(e) ==> self.created_spec() is None && e is Timestamp,
    {
        if self.created.is_some() {
            Ok(self.build_at(0))
        } else {
            match unix_now_secs() {
                Some(now) => Ok(self.build_at(now)),
                None => Err(Error::Timestamp),
            }
        }
    }
}

/// Relies on std::time::SystemTime::now and duration_since(UNIX_EPOCH) for
/// the clock's seconds since the epoch; of the returned value nothing is
/// promised.
#[verifier::external_body]
fn unix_now_secs() -> (r: Option<u64>)
{
    match std::time::SystemTime::now().duration_since(std::time::SystemTime::UNIX_EPOCH) {
        Ok(d) => Some(d.as_secs()),
        Err(_) => None,
    }
}

/// A key record: an opaque payload plus its creation timestamp (seconds
/// since the epoch). Immutable once built.
#[derive(Debug, Clone)]
pub struct Key<Data = Vec<u8>> {
    data: Data,
    created: u64,
}

impl<Data> Key<Data> {
    /// The payload.
    pub closed spec fn data_spec(&self) -> Data {
        self.data
    }

    /// The creation timestamp.
    pub closed spec fn created_spec(&self) -> u64 {
        self.created
    }

    /// A builder holding `data`, with no explicit timestamp yet.
    pub fn builder(data: Data) -> (r: KeyBuilder<Data>)
        ensures
            r.data_spec() == data,
            r.created_spec() is None,
    {
        KeyBuilder { data, created: None }
    }

    /// The payload, borrowed.
    pub fn data(&self) -> (r: &Data)
        ensures
            *r == self.data_spec(),
    {
        &self.data
    }

    /// The creation timestamp, borrowed.
    pub fn created(&self) -> (r: &u64)
        ensures
            *r == self.created_spec(),
    {
        &self.created
    }
}

impl Key<Vec<u8>> {
    /// A builder around `size` bytes drawn from the thread-local generator.
    ///
    /// Relies on rand::thread_rng and rand::RngCore::try_fill_bytes: on
    /// success the buffer is filled to its length; nothing is promised of
    /// the drawn bytes.
    #[verifier::external_body]
    pub fn builder_thread_rng(&mut self, size: usize) -> (r: Result<KeyBuilder<Vec<u8>>, Error>)
        ensures
            r matches Ok(b) ==> b.data_spec()@.len() == size && b.created_spec() is None,
    {
        let mut bytes = vec![0; size];
        match rand::thread_rng().try_fill_bytes(bytes.as_mut_slice()) {
            Ok(()) => Ok(KeyBuilder { data: bytes, created: None }),
            Err(_) => Err(Error::Rand),
        }
    }

    /// A builder around `size` bytes drawn from the operating system's
    /// secure random source.
    ///
    /// Relies on rand::rngs::OsRng::try_fill_bytes: on success the buffer
    /// is filled to its length; nothing is promised of the drawn bytes.
    #[verifier::external_body]
    pub fn builder_os_rng(&mut self, size: usize) -> (r: Result<KeyBuilder<Vec<u8>>, Error>)
        ensures
            r matches Ok(b) ==> b.data_spec()@.len() == size && b.created_spec() is None,
    {
        let mut bytes = vec![0; size];
        match rand::rngs::OsRng.try_fill_bytes(bytes.as_mut_slice()) {
            Ok(()) => Ok(KeyBuilder { data: bytes, created: None }),
            Err(_) => Err(Error::Rand),
        }
    }
}

impl<const N: usize> Key<[u8; N]> {
    /// A builder around a fresh `N`-byte array drawn from the thread-local
    /// generator.
    ///
    /// Relies on rand::thread_rng and rand::RngCore::try_fill_bytes: on
    /// success the array is filled; nothing is promised of the drawn bytes.
    #[verifier::external_body]
    pub fn builder_thread_rng(&mut self) -> (r: Result<KeyBuilder<[u8; N]>, Error>)
        ensures
            r matches Ok(b) ==> b.created_spec() is None,
    {
        let mut bytes = [0; N];
        match rand::thread_rng().try_fill_bytes(&mut bytes) {
            Ok(()) => Ok(KeyBuilder { data: bytes, created: None }),
            Err(_) => Err(Error::Rand),
        }
    }

    /// A builder around a fresh `N`-byte array drawn from the operating
    /// system's secure random source.
    ///
    /// Relies on rand::rngs::OsRng::try_fill_bytes: on success the array
    /// is filled; nothing is promised of the drawn bytes.
    #[verifier::external_body]
    pub fn builder_os_rng(&mut self) -> (r: Result<KeyBuilder<[u8; N]>, Error>)
        ensures
            r matches Ok(b) ==> b.created_spec() is None,
    {
        let mut bytes = [0; N];
        match rand::rngs::OsRng.try_fill_bytes(&mut bytes) {
            Ok(()) => Ok(KeyBuilder { data: bytes, created: None }),
            Err(_) => Err(Error::Rand),
        }
    }
}

/// The effective payload length a key record's encoding carries: a ghost
/// payload too long for the length field encodes as if empty, which keeps
/// the encoding self-delimiting for every value.
pub open spec fn key_wire_len(data: Seq<u8>) -> u64 {
    if data.len() <= u64::MAX {
        data.len() as u64
    } else {
        0
    }
}

/// The payload bytes a key record's encoding carries.
pub open spec fn key_wire_data(data: Seq<u8>) -> Seq<u8> {
    if data.len() <= u64::MAX {
        data
    } else {
        Seq::empty()
    }
}

impl Wire for Key<Vec<u8>> {
    /// A byte-payload record encodes as the payload length in 8
    /// little-endian bytes, the payload, then the timestamp in 8
    /// little-endian bytes.
    open spec fn wire(&self) -> Seq<u8> {
        spec_u64_to_le_bytes(key_wire_len(self.data_spec()@))
            + key_wire_data(self.data_spec()@)
            + spec_u64_to_le_bytes(self.created_spec())
    }

    proof fn wire_prefix_free(a: &Self, b: &Self, ra: Seq<u8>, rb: Seq<u8>) {
        lemma_auto_spec_u64_to_from_le_bytes();
        let wa = a.wire();
        let wb = b.wire();
        let la = key_wire_len(a.data_spec()@);
        let lb = key_wire_len(b.data_spec()@);
        assert(wa.len() == 16 + la);
        assert(wb.len() == 16 + lb);
        let ha = spec_u64_to_le_bytes(la) + key_wire_data(a.data_spec()@);
        let hb = spec_u64_to_le_bytes(lb) + key_wire_data(b.data_spec()@);
        assert(wa == ha + spec_u64_to_le_bytes(a.created_spec()));
        assert(wb == hb + spec_u64_to_le_bytes(b.created_spec()));
        assert forall|i: int| 0 <= i < 8
            implies spec_u64_to_le_bytes(la)[i] == spec_u64_to_le_bytes(lb)[i] by {
            assert(wa[i] == (wa + ra)[i]);
            assert(wb[i] == (wb + rb)[i]);
            assert(wa[i] == ha[i] && ha[i] == spec_u64_to_le_bytes(la)[i]);
            assert(wb[i] == hb[i] && hb[i] == spec_u64_to_le_bytes(lb)[i]);
        }
        assert(spec_u64_to_le_bytes(la) =~= spec_u64_to_le_bytes(lb));
        assert(la == lb);
        assert forall|i: int| 0 <= i < wa.len() implies wa[i] == wb[i] by {
            assert(wa[i] == (wa + ra)[i]);
            assert(wb[i] == (wb + rb)[i]);
        }
        assert(wa =~= wb);
    }

    fn write_wire(&self, out: &mut Vec<u8>) {
        proof {
            lemma_auto_spec_u64_to_from_le_bytes();
        }
        let n = self.data.len();
        (n as u64).write_wire(out);
        let ghost mid = out@;
        let mut i: usize = 0;
        while i < n
            invariant
                i <= n,
                n == self.data@.len(),
                out@ == mid + self.data@.take(i as int),
            decreases n - i,
        {
            out.push(self.data[i]);
            proof {
                assert(out@ =~= mid + self.data@.take(i + 1));
            }
            i = i + 1;
        }
        self.created.write_wire(out);
        proof {
            assert(self.data@.take(n as int) =~= self.data@);
            assert(key_wire_data(self.data_spec()@) == self.data@);
            assert(out@ =~= old(out)@ + self.wire());
        }
    }

    fn read_wire(bytes: &Vec<u8>, pos: usize) -> (r: Option<(Self, usize)>) {
        proof {
            lemma_auto_spec_u64_to_from_le_bytes();
            assert forall|v: Self| (#[trigger] v.wire()).len() >= 16 by {}
        }
        let (n64, pos1) = match u64::read_wire(bytes, pos) {
            Some(p) => p,
            None => {
                proof {
                    if pos + 8 <= bytes.len() {
                        let w = spec_u64_from_le_bytes(bytes@.subrange(pos as int, pos + 8));
                        assert(spec_u64_to_le_bytes(w) == bytes@.subrange(pos as int, pos + 8));
                        assert(bytes@.subrange(pos as int, pos + w.wire().len()) == w.wire());
                        assert(false);
                    }
                }
                return None;
            },
        };
        proof {
            assert(pos1 == pos + 8);
            assert(spec_u64_to_le_bytes(n64) == bytes@.subrange(pos as int, pos + 8));
        }
        let rem = bytes.len() - pos1;
        if rem < 8 || n64 > (rem - 8) as u64 {
            proof {
                assert forall|v: Self| !(pos + (#[trigger] v.wire()).len() <= bytes@.len()
                    && bytes@.subrange(pos as int, pos + v.wire().len()) == v.wire()) by {
                    if pos + v.wire().len() <= bytes@.len()
                        && bytes@.subrange(pos as int, pos + v.wire().len()) == v.wire() {
                        let lv = key_wire_len(v.data_spec()@);
                        assert(bytes@.subrange(pos as int, pos + 8)
                            =~= v.wire().subrange(0, 8));
                        assert(v.wire().subrange(0, 8) =~= spec_u64_to_le_bytes(lv));
                        assert(n64 == lv);
                        assert(pos + 16 + lv <= bytes@.len());
                        assert(false);
                    }
                }
            }
            return None;
        }
        let n = n64 as usize;
        let mut data: Vec<u8> = Vec::new();
        let mut i: usize = 0;
        while i < n
            invariant
                i <= n,
                pos1 + n + 8 <= bytes@.len(),
                bytes@.len() <= usize::MAX,
                data@ == bytes@.subrange(pos1 as int, pos1 + i),
            decreases n - i,
        {
            data.push(bytes[pos1 + i]);
            proof {
                assert(data@ =~= bytes@.subrange(pos1 as int, pos1 + i + 1));
            }
            i = i + 1;
        }
        let pos2 = pos1 + n;
        let (created, pos3) = match u64::read_wire(bytes, pos2) {
            Some(p) => p,
            None => {
                proof {
                    let w = spec_u64_from_le_bytes(bytes@.subrange(pos2 as int, pos2 + 8));
                    assert(spec_u64_to_le_bytes(w) == bytes@.subrange(pos2 as int, pos2 + 8));
                    assert(bytes@.subrange(pos2 as int, pos2 + w.wire().len()) == w.wire());
                    assert(false);
                }
                return None;
            },
        };
        let record = Key { data, created };
        proof {
            assert(pos3 == pos2 + 8);
            assert(spec_u64_to_le_bytes(created) == bytes@.subrange(pos2 as int, pos2 + 8));
            assert(key_wire_len(record.data_spec()@) == n64);
            assert(key_wire_data(record.data_spec()@) == record.data_spec()@);
            assert(record.wire() =~= bytes@.subrange(pos as int, pos3 as int));
            assert forall|v: Self| (pos + (#[trigger] v.wire()).len() <= bytes@.len()
                && bytes@.subrange(pos as int, pos + v.wire().len()) == v.wire())
                implies (pos3 == pos + v.wire().len() && record.wire() == v.wire()) by {
                let lv = key_wire_len(v.data_spec()@);
                assert(bytes@.subrange(pos as int, pos + 8) =~= v.wire().subrange(0, 8));
                assert(v.wire().subrange(0, 8) =~= spec_u64_to_le_bytes(lv));
                assert(n64 == lv);
                assert(v.wire().len() == 16 + lv);
                assert(pos3 == pos + v.wire().len());
                assert(record.wire() =~= v.wire());
            }
        }
        Some((record, pos3))
    }
}

/// Law: the record encoding is injective on records a process can hold —
/// records that encode alike have equal payloads and equal timestamps, so
/// decoding reproduces the record that was encoded.
pub proof fn lemma_key_wire_injective(a: &Key<Vec<u8>>, b: &Key<Vec<u8>>)
    requires
        a.wire() == b.wire(),
        a.data_spec()@.len() <= u64::MAX,
        b.data_spec()@.len() <= u64::MAX,
    ensures
        a.data_spec()@ == b.data_spec()@,
        a.created_spec() == b.created_spec(),
{
    lemma_auto_spec_u64_to_from_le_bytes();
    let la = a.data_spec()@.len() as u64;
    let lb = b.data_spec()@.len() as u64;
    assert(spec_u64_to_le_bytes(la) =~= a.wire().subrange(0, 8));
    assert(spec_u64_to_le_bytes(lb) =~= b.wire().subrange(0, 8));
    assert(la == lb);
    assert(a.data_spec()@ =~= a.wire().subrange(8, 8 + la));
    assert(b.data_spec()@ =~= b.wire().subrange(8, 8 + lb));
    assert(spec_u64_to_le_bytes(a.created_spec()) =~= a.wire().subrange(8 + la, 16 + la));
    assert(spec_u64_to_le_bytes(b.created_spec()) =~= b.wire().subrange(8 + lb, 16 + lb));
    assert(a.created_spec() == b.created_spec());
}

impl<T> Key<Vec<T>> {
    /// The payload as a slice.
    pub fn as_slice(&self) -> (r: &[T])
        ensures
            r@ == self.data_spec()@,
    {
        self.data.as_slice()
    }
}

impl<T, const N: usize> Key<[T; N]> {
    /// The payload as a slice.
    pub fn as_slice(&self) -> (r: &[T])
        ensures
            r@ == self.data_spec()@,
    {
        self.data.as_slice()
    }
}

} // verus!
