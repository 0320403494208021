//! The storage-proof-size reader: a read-only context value that reports how
//! large the storage proof recorded so far is, or a sentinel when no recorder
//! is attached.

use vstd::prelude::*;
use crate::weight::sat_add;

verus! {

/// What the reader reports when no recorder is attached.
pub const PROOF_RECORDING_DISABLED: u64 = u64::MAX;

/// Whether `key` is among `seen`.
pub open spec fn seen_key(seen: Seq<Vec<u8>>, key: Seq<u8>) -> bool {
    exists|k: int| 0 <= k < seen.len() && (#[trigger] seen[k])@ == key
}

/// A proof recorder: the keys read so far and the size of the proof that
/// reading them produced.
#[derive(Debug)]
pub struct ProofRecorder {
    pub seen: Vec<Vec<u8>>,
    pub size: u64,
}

/// The reader, with or without a recorder attached.
#[derive(Debug)]
pub struct StorageProofSize {
    pub recorder: Option<ProofRecorder>,
}

fn same_bytes(a: &Vec<u8>, b: &Vec<u8>) -> (r: bool)
    ensures
        r == (a@ == b@),
{
    if a.len() != b.len() {
        return false;
    }
    let mut i: usize = 0;
    while i < a.len()
        invariant
            i <= a.len(),
            a.len() == b.len(),
            forall|k: int| 0 <= k < i ==> a@[k] == b@[k],
        decreases a.len() - i,
    {
        if a[i] != b[i] {
            return false;
        }
        i = i + 1;
    }
    proof {
        assert(a@ =~= b@);
    }
    true
}

impl StorageProofSize {
    /// A reader with no recorder attached.
    pub fn disabled() -> (r: StorageProofSize)
        ensures
            r.recorder is None,
    {
        StorageProofSize { recorder: None }
    }

    /// A reader with a fresh recorder attached.
    pub fn recording() -> (r: StorageProofSize)
        ensures
            r.recorder is Some,
            r.recorder.unwrap().size == 0,
            r.recorder.unwrap().seen@.len() == 0,
    {
        StorageProofSize { recorder: Some(ProofRecorder { seen: Vec::new(), size: 0 }) }
    }

    /// The current storage proof size, or `PROOF_RECORDING_DISABLED` when no
    /// recorder is attached.
    pub fn storage_proof_size(&self) -> (r: u64)
        ensures
            r == match self.recorder {
                Some(rec) => rec.size,
                None => PROOF_RECORDING_DISABLED,
            },
    {
        match &self.recorder {
            Some(rec) => rec.size,
            None => PROOF_RECORDING_DISABLED,
        }
    }

    /// Note a storage read of `key` that adds `proof_bytes` to the proof the
    /// first time the key is read; a key already read adds nothing.
    pub fn note_read(&mut self, key: &Vec<u8>, proof_bytes: u64)
        ensures
            old(self).recorder is None ==> final(self).recorder is None,
            old(self).recorder is Some ==> final(self).recorder is Some,
            old(self).recorder is Some ==> final(self).recorder.unwrap().size == if seen_key(
                old(self).recorder.unwrap().seen@,
                key@,
            ) {
                old(self).recorder.unwrap().size
            } else {
                sat_add(old(self).recorder.unwrap().size, proof_bytes)
            },
            old(self).recorder is Some ==> seen_key(final(self).recorder.unwrap().seen@, key@),
            old(self).recorder is Some && seen_key(old(self).recorder.unwrap().seen@, key@)
                ==> final(self).recorder.unwrap().seen@ == old(self).recorder.unwrap().seen@,
            old(self).recorder is Some && !seen_key(old(self).recorder.unwrap().seen@, key@)
                ==> final(self).recorder.unwrap().seen@.len() == old(self).recorder.unwrap().seen@.len() + 1
                && final(self).recorder.unwrap().seen@.drop_last() == old(self).recorder.unwrap().seen@
                && final(self).recorder.unwrap().seen@.last()@ == key@,
    {
        let mut cur: Option<ProofRecorder> = None;
        std::mem::swap(&mut cur, &mut self.recorder);
        match cur {
            None => {},
            Some(rec) => {
                let mut rec = rec;
                if !has_seen(&rec.seen, key) {
                    let copy = key.clone();
                    proof {
                        assert(copy@ == key@);
                    }
                    let ghost before = rec.seen@;
                    rec.seen.push(copy);
                    rec.size = rec.size.saturating_add(proof_bytes);
                    proof {
                        assert(rec.seen@[rec.seen@.len() - 1]@ == key@);
                        assert(rec.seen@.drop_last() =~= before);
                    }
                }
                self.recorder = Some(rec);
            },
        }
    }
}

fn has_seen(seen: &Vec<Vec<u8>>, key: &Vec<u8>) -> (r: bool)
    ensures
        r == seen_key(seen@, key@),
{
    let mut i: usize = 0;
    while i < seen.len()
        invariant
            i <= seen.len(),
            forall|k: int| 0 <= k < i ==> (#[trigger] seen@[k])@ != key@,
        decreases seen.len() - i,
    {
        if same_bytes(&seen[i], key) {
            return true;
        }
        i = i + 1;
    }
    false
}

} // verus!
