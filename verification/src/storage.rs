//! The storage port: the abstract persistence interface the dispatcher
//! depends on, and an in-memory reference implementation of it.

use vstd::prelude::*;

use crate::codec::{proof_views, Proof};
use crate::outpoint::{Outpoint, TXID_LEN};

verus! {

/// A failure of the storage backend. Its cause is the backend's own concern
/// and is not interpreted at this layer; the dispatcher surfaces it as an
/// internal error.
pub struct StorageError;

/// The persistence port. The dispatcher holds one implementation of it for
/// the server's lifetime; a backend models its contents as, for each
/// transaction hash, the sequence of proofs stored under it, in the stable
/// order reads return them.
pub trait BifrostDatabase: Sized {
    /// Model of the store: the proofs filed under `txid`, in the stable
    /// order [`Self::get_proofs_for`] returns them.
    spec fn proofs_for_spec(&self, txid: Seq<u8>) -> Seq<Seq<u8>>;

    /// Open or create a store rooted at a base directory or equivalent
    /// configuration value.
    fn new(basedir: &str) -> Self;

    /// All proofs previously stored for the outpoint, in the store's stable
    /// order; an empty collection — never an error — where none exist.
    fn get_proofs_for(&self, outpoint: &Outpoint) -> (r: Result<Vec<Proof>, StorageError>)
        ensures
            r matches Ok(ps) ==> proof_views(ps@) == self.proofs_for_spec(outpoint.txid@),
    ;

    /// Durably add `proof` to what is stored under the transaction hash
    /// `txid`; a write always adds, never replaces, and leaves every other
    /// transaction's proofs as they were.
    fn save_proof(&mut self, proof: &Proof, txid: &[u8]) -> (r: Result<(), StorageError>)
        requires
            txid@.len() == TXID_LEN,
        ensures
            r matches Ok(u) ==> {
                &&& final(self).proofs_for_spec(txid@) == old(self).proofs_for_spec(
                    txid@,
                ).push(proof@)
                &&& forall|t: Seq<u8>|
                    t != txid@ ==> #[trigger] final(self).proofs_for_spec(t) == old(
                        self,
                    ).proofs_for_spec(t)
            },
    ;
}

/// An entry of the in-memory store: a proof filed under a transaction hash.
pub struct StoredProof {
    pub txid: Vec<u8>,
    pub proof: Proof,
}

/// The proofs among `entries` filed under `txid`, oldest first.
pub open spec fn proofs_matching(entries: Seq<StoredProof>, txid: Seq<u8>) -> Seq<Seq<u8>>
    decreases entries.len(),
{
    if entries.len() == 0 {
        Seq::empty()
    } else {
        let rest = proofs_matching(entries.drop_last(), txid);
        if entries.last().txid@ == txid {
            rest.push(entries.last().proof@)
        } else {
            rest
        }
    }
}

/// Whether two byte strings hold the same bytes.
fn bytes_eq(a: &[u8], b: &[u8]) -> (r: bool)
    ensures
        r == (a@ == b@),
{
    if a.len() != b.len() {
        return false;
    }
    let n = a.len();
    let mut i: usize = 0;
    while i < n
        invariant
            0 <= i <= n,
            a@.len() == n,
            b@.len() == n,
            forall|k: int| 0 <= k < i ==> a@[k] == b@[k],
        decreases n - i,
    {
        if a[i] != b[i] {
            return false;
        }
        i += 1;
    }
    assert(a@ =~= b@);
    true
}

/// A fresh copy of a byte vector.
fn copy_bytes(b: &Vec<u8>) -> (r: Vec<u8>)
    ensures
        r@ == b@,
{
    let mut r: Vec<u8> = Vec::new();
    let mut i: usize = 0;
    while i < b.len()
        invariant
            0 <= i <= b@.len(),
            r@ == b@.take(i as int),
        decreases b@.len() - i,
    {
        r.push(b[i]);
        assert(r@ =~= b@.take(i + 1));
        i += 1;
    }
    assert(b@.take(b@.len() as int) =~= b@);
    r
}

/// An in-memory store: the reference implementation of the port, keeping
/// every saved proof under its transaction hash in insertion order.
pub struct MemoryDatabase {
    pub entries: Vec<StoredProof>,
}

impl BifrostDatabase for MemoryDatabase {
    open spec fn proofs_for_spec(&self, txid: Seq<u8>) -> Seq<Seq<u8>> {
        proofs_matching(self.entries@, txid)
    }

    fn new(basedir: &str) -> Self {
        MemoryDatabase { entries: Vec::new() }
    }

    fn get_proofs_for(&self, outpoint: &Outpoint) -> (r: Result<Vec<Proof>, StorageError>) {
        let mut out: Vec<Proof> = Vec::new();
        let n = self.entries.len();
        let mut i: usize = 0;
        assert(proof_views(out@) =~= proofs_matching(self.entries@.take(0), outpoint.txid@));
        while i < n
            invariant
                0 <= i <= n == self.entries@.len(),
                proof_views(out@) == proofs_matching(self.entries@.take(i as int), outpoint.txid@),
            decreases n - i,
        {
            let ghost pre = proof_views(out@);
            let e = &self.entries[i];
            if bytes_eq(e.txid.as_slice(), outpoint.txid.as_slice()) {
                let payload = copy_bytes(&e.proof.payload);
                out.push(Proof { payload });
                assert(proof_views(out@) =~= pre.push(e.proof@));
            }
            proof {
                let taken = self.entries@.take(i + 1);
                assert(taken.drop_last() =~= self.entries@.take(i as int));
                assert(taken.last() == self.entries@[i as int]);
            }
            i += 1;
        }
        assert(self.entries@.take(n as int) =~= self.entries@);
        Ok(out)
    }

    fn save_proof(&mut self, proof: &Proof, txid: &[u8]) -> (r: Result<(), StorageError>) {
        let ghost pre = self.entries@;
        let owned_txid = vstd::slice::slice_to_vec(txid);
        let payload = copy_bytes(&proof.payload);
        self.entries.push(StoredProof { txid: owned_txid, proof: Proof { payload } });
        proof {
            assert(self.entries@.drop_last() =~= pre);
            assert(self.entries@.last().txid@ == txid@);
            assert(self.entries@.last().proof@ == proof@);
            assert forall|t: Seq<u8>|
                t != txid@ implies #[trigger] proofs_matching(self.entries@, t) == proofs_matching(
                pre,
                t,
            ) by {
                assert(self.entries@.last().txid@ != t);
            }
        }
        Ok(())
    }
}

} // verus!
