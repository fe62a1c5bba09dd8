//! The store capability interface and an in-memory implementation.
//!
//! A store keeps immutable patch files keyed by their content hash and one
//! meta record per device. The interface is independent of the backing
//! medium; `MemStore` holds everything in memory and models a shared folder
//! exactly, byte for byte, so corruption and concurrent writers can be
//! reasoned about and exercised.
use vstd::prelude::*;
use crate::meta::Meta;
use crate::patch::Patch;
use crate::patch::PatchRef;
use crate::patch::PatchView;
use crate::patch::checked_patch;
use crate::patch::decode_patch_checked;
use crate::patch::enc_patch;
use crate::patch::patch_wf;

verus! {

/// What can go wrong at the storage boundary; each variant carries the
/// offending identifier or path.
#[derive(Debug)]
pub enum StoreError {
    /// No patch file exists under this reference.
    NotFound { patch_ref: Vec<u8> },
    /// A patch file exists but does not decode to a patch matching its name.
    DeserializePatch { patch_ref: Vec<u8> },
    /// A patch with this reference exists with different content.
    PatchMismatch { patch_ref: Vec<u8> },
    /// A meta record could not be read back.
    DeserializeMeta { device_id: String },
    /// Reading from the backing medium failed.
    ReadFile { path: String },
    /// Writing to the backing medium failed.
    WriteFile { path: String },
}

/// The reference an error is about, where it carries one.
pub open spec fn err_patch_ref(e: StoreError) -> Seq<u8> {
    match e {
        StoreError::NotFound { patch_ref } => patch_ref@,
        StoreError::DeserializePatch { patch_ref } => patch_ref@,
        StoreError::PatchMismatch { patch_ref } => patch_ref@,
        StoreError::DeserializeMeta { .. } => Seq::empty(),
        StoreError::ReadFile { .. } => Seq::empty(),
        StoreError::WriteFile { .. } => Seq::empty(),
    }
}

/// Read/write access to patches and per-device meta records.
///
/// The contracts state ideal store semantics over two abstract maps: the
/// patch files by reference and the known-reference sets by device.
pub trait Store: Sized {
    /// Stored patch files: reference to raw bytes.
    open spec fn patch_files(&self) -> Map<Seq<u8>, Seq<u8>> {
        Map::empty()
    }

    /// Stored meta records: device to set of known references.
    open spec fn metas(&self) -> Map<Seq<char>, Set<Seq<u8>>> {
        Map::empty()
    }

    /// The device this store instance acts for.
    open spec fn local_device(&self) -> Seq<char> {
        Seq::empty()
    }

    open spec fn inv(&self) -> bool {
        true
    }

    fn device_id(&self) -> (r: String)
        requires
            self.inv(),
        ensures
            r@ == self.local_device(),
    ;

    /// Returns the device's record, or an empty one if none exists yet;
    /// absence is never an error.
    fn get_meta(&self, device_id: &String) -> (r: Meta)
        requires
            self.inv(),
        ensures
            r.inv(),
            r@.device_id == device_id@,
            r.known_set() == if self.metas().contains_key(device_id@) {
                self.metas()[device_id@]
            } else {
                Set::<Seq<u8>>::empty()
            },
    ;

    /// Overwrites the record for its device.
    fn save_meta(&mut self, meta: &Meta) -> (r: Result<(), StoreError>)
        requires
            old(self).inv(),
            meta.inv(),
        ensures
            final(self).inv(),
            final(self).local_device() == old(self).local_device(),
            final(self).patch_files() == old(self).patch_files(),
            r matches Ok(()) ==> final(self).metas() == old(self).metas().insert(
                meta@.device_id,
                meta.known_set(),
            ),
            r is Err ==> final(self).metas() == old(self).metas(),
    ;

    /// Fetches and integrity-checks one patch: succeeds exactly when a file
    /// exists under the reference and decodes to a patch whose reference and
    /// body digest both match it.
    fn get_patch(&self, patch_ref: &PatchRef) -> (r: Result<Patch, StoreError>)
        requires
            self.inv(),
            patch_ref.inv(),
        ensures
            r matches Ok(p) ==> self.patch_files().contains_key(patch_ref@) && checked_patch(
                patch_ref@,
                self.patch_files()[patch_ref@],
            ) == Some(p@) && patch_wf(p@) && p@.patch_ref == patch_ref@ && self.patch_files()[
                patch_ref@
            ] == enc_patch(p@),
            r is Err <==> !(self.patch_files().contains_key(patch_ref@) && checked_patch(
                patch_ref@,
                self.patch_files()[patch_ref@],
            ) is Some),
            r matches Err(e) ==> err_patch_ref(e) == patch_ref@,
    ;

    /// Stores a patch under its reference. Re-adding identical content
    /// succeeds and changes nothing; a same-reference file with different
    /// content is reported, never overwritten.
    fn add_patch(&mut self, patch: &Patch) -> (r: Result<(), StoreError>)
        requires
            old(self).inv(),
            patch_wf(patch@),
        ensures
            final(self).inv(),
            final(self).local_device() == old(self).local_device(),
            final(self).metas() == old(self).metas(),
            r matches Ok(()) ==> final(self).patch_files() == old(self).patch_files().insert(
                patch@.patch_ref,
                enc_patch(patch@),
            ),
            r is Err ==> final(self).patch_files() == old(self).patch_files(),
            r is Err <==> (old(self).patch_files().contains_key(patch@.patch_ref) && old(
                self,
            ).patch_files()[patch@.patch_ref] != enc_patch(patch@)),
            r matches Err(e) ==> err_patch_ref(e) == patch@.patch_ref,
    ;

    /// Every stored reference, without duplicates.
    fn list_patch_refs(&self) -> (r: Vec<PatchRef>)
        requires
            self.inv(),
        ensures
            forall|i: int, j: int| 0 <= i < j < r@.len() ==> r@[i]@ != r@[j]@,
            forall|i: int| 0 <= i < r@.len() ==> (#[trigger] r@[i]).inv(),
            forall|i: int| 0 <= i < r@.len() ==> self.patch_files().contains_key(#[trigger] r@[i]@),
            forall|k: Seq<u8>|
                self.patch_files().contains_key(k) ==> exists|i: int|
                    0 <= i < r@.len() && #[trigger] r@[i]@ == k,
    ;

    /// Every device that has a meta record, without duplicates.
    fn list_device_ids(&self) -> (r: Vec<String>)
        requires
            self.inv(),
        ensures
            forall|i: int, j: int| 0 <= i < j < r@.len() ==> r@[i]@ != r@[j]@,
            forall|i: int| 0 <= i < r@.len() ==> self.metas().contains_key(#[trigger] r@[i]@),
            forall|k: Seq<char>|
                self.metas().contains_key(k) ==> exists|i: int|
                    0 <= i < r@.len() && #[trigger] r@[i]@ == k,
    ;
}

// ---------------------------------------------------------------------------
// In-memory store
// ---------------------------------------------------------------------------
/// The map held by an association list of patch files.
pub open spec fn files_map(s: Seq<(PatchRef, Vec<u8>)>) -> Map<Seq<u8>, Seq<u8>>
    decreases s.len(),
{
    if s.len() == 0 {
        Map::empty()
    } else {
        files_map(s.drop_last()).insert(s.last().0@, s.last().1@)
    }
}

/// The map held by an association list of meta records.
pub open spec fn metas_map(s: Seq<Meta>) -> Map<Seq<char>, Set<Seq<u8>>>
    decreases s.len(),
{
    if s.len() == 0 {
        Map::empty()
    } else {
        metas_map(s.drop_last()).insert(s.last()@.device_id, s.last().known_set())
    }
}

pub proof fn lemma_files_map_contains(s: Seq<(PatchRef, Vec<u8>)>, k: Seq<u8>)
    ensures
        files_map(s).contains_key(k) <==> exists|i: int| 0 <= i < s.len() && #[trigger] s[i].0@
            == k,
    decreases s.len(),
{
    if s.len() > 0 {
        lemma_files_map_contains(s.drop_last(), k);
        if s.last().0@ == k {
            assert(s[s.len() - 1].0@ == k);
        } else if exists|i: int| 0 <= i < s.len() && #[trigger] s[i].0@ == k {
            let i = choose|i: int| 0 <= i < s.len() && #[trigger] s[i].0@ == k;
            assert(s.drop_last()[i].0@ == k);
        }
    }
}

pub proof fn lemma_files_map_get(s: Seq<(PatchRef, Vec<u8>)>, i: int)
    requires
        0 <= i < s.len(),
        forall|x: int, y: int| 0 <= x < y < s.len() ==> s[x].0@ != s[y].0@,
    ensures
        files_map(s).contains_key(s[i].0@),
        files_map(s)[s[i].0@] == s[i].1@,
    decreases s.len(),
{
    lemma_files_map_contains(s, s[i].0@);
    if i < s.len() - 1 {
        assert(s.last().0@ != s[i].0@);
        assert(s.drop_last()[i] == s[i]);
        lemma_files_map_get(s.drop_last(), i);
    }
}

pub proof fn lemma_metas_map_contains(s: Seq<Meta>, k: Seq<char>)
    ensures
        metas_map(s).contains_key(k) <==> exists|i: int| 0 <= i < s.len() && (#[trigger] s[i])@.device_id
            == k,
    decreases s.len(),
{
    if s.len() > 0 {
        lemma_metas_map_contains(s.drop_last(), k);
        if s.last()@.device_id == k {
            assert(s[s.len() - 1]@.device_id == k);
        } else if exists|i: int| 0 <= i < s.len() && (#[trigger] s[i])@.device_id == k {
            let i = choose|i: int| 0 <= i < s.len() && (#[trigger] s[i])@.device_id == k;
            assert(s.drop_last()[i] == s[i]);
        }
    }
}

pub proof fn lemma_metas_map_get(s: Seq<Meta>, i: int)
    requires
        0 <= i < s.len(),
        forall|x: int, y: int| 0 <= x < y < s.len() ==> s[x]@.device_id != s[y]@.device_id,
    ensures
        metas_map(s).contains_key(s[i]@.device_id),
        metas_map(s)[s[i]@.device_id] == s[i].known_set(),
    decreases s.len(),
{
    lemma_metas_map_contains(s, s[i]@.device_id);
    if i < s.len() - 1 {
        assert(s.last()@.device_id != s[i]@.device_id);
        assert(s.drop_last()[i] == s[i]);
        lemma_metas_map_get(s.drop_last(), i);
    }
}

/// Replacing the entry at `i` with one carrying the same key updates the map.
pub proof fn lemma_metas_map_set(s: Seq<Meta>, i: int, m: Meta)
    requires
        0 <= i < s.len(),
        forall|x: int, y: int| 0 <= x < y < s.len() ==> s[x]@.device_id != s[y]@.device_id,
        m@.device_id == s[i]@.device_id,
    ensures
        metas_map(s.update(i, m)) == metas_map(s).insert(m@.device_id, m.known_set()),
    decreases s.len(),
{
    let t = s.update(i, m);
    if i == s.len() - 1 {
        assert(t.drop_last() =~= s.drop_last());
        assert(t.last() == m);
        assert(metas_map(t) =~= metas_map(s).insert(m@.device_id, m.known_set()));
    } else {
        assert(t.last() == s.last());
        assert(t.drop_last() =~= s.drop_last().update(i, m));
        lemma_metas_map_set(s.drop_last(), i, m);
        assert(s.last()@.device_id != m@.device_id);
        assert(metas_map(t) =~= metas_map(s).insert(m@.device_id, m.known_set()));
    }
}

/// A store backed by plain memory: patch files as raw bytes by reference,
/// one meta record per device. Byte-level storage keeps the same corruption
/// model as a shared folder: whatever bytes sit under a name are what a
/// reader gets.
pub struct MemStore {
    pub device_id: String,
    pub meta_records: Vec<Meta>,
    pub patch_entries: Vec<(PatchRef, Vec<u8>)>,
}

impl MemStore {
    pub open spec fn wf(&self) -> bool {
        &&& forall|x: int, y: int|
            0 <= x < y < self.patch_entries@.len() ==> self.patch_entries@[x].0@
                != self.patch_entries@[y].0@
        &&& forall|x: int, y: int|
            0 <= x < y < self.meta_records@.len() ==> self.meta_records@[x]@.device_id
                != self.meta_records@[y]@.device_id
        &&& forall|i: int|
            0 <= i < self.meta_records@.len() ==> (#[trigger] self.meta_records@[i]).inv()
        &&& forall|i: int|
            0 <= i < self.patch_entries@.len() ==> (#[trigger] self.patch_entries@[i].0)@.len()
                == 32
    }

    /// An empty store acting for one device.
    pub fn new(device_id: String) -> (r: MemStore)
        ensures
            r.inv(),
            r.local_device() == device_id@,
            r.patch_files() == Map::<Seq<u8>, Seq<u8>>::empty(),
            r.metas() == Map::<Seq<char>, Set<Seq<u8>>>::empty(),
    {
        MemStore { device_id, meta_records: Vec::new(), patch_entries: Vec::new() }
    }

    /// The same stored folder as seen by another device.
    pub fn with_device_id(self, device_id: String) -> (r: MemStore)
        requires
            self.inv(),
        ensures
            r.inv(),
            r.local_device() == device_id@,
            r.patch_files() == self.patch_files(),
            r.metas() == self.metas(),
    {
        MemStore {
            device_id,
            meta_records: self.meta_records,
            patch_entries: self.patch_entries,
        }
    }

    /// Puts raw bytes under a reference, replacing whatever was there. This
    /// models a file appearing in the shared folder from outside: an
    /// external writer is not bound by the create-only discipline, so the
    /// bytes need not be a valid patch.
    pub fn put_patch_bytes(&mut self, patch_ref: PatchRef, bytes: Vec<u8>)
        requires
            old(self).inv(),
            patch_ref.inv(),
        ensures
            final(self).inv(),
            final(self).local_device() == old(self).local_device(),
            final(self).metas() == old(self).metas(),
            final(self).patch_files() == old(self).patch_files().insert(patch_ref@, bytes@),
    {
        let mut i: usize = 0;
        while i < self.patch_entries.len()
            invariant
                self == old(self),
                old(self).inv(),
                patch_ref.inv(),
                i <= self.patch_entries@.len(),
                forall|j: int| 0 <= j < i ==> self.patch_entries@[j].0@ != patch_ref@,
            decreases self.patch_entries@.len() - i,
        {
            if self.patch_entries[i].0.eq_ref(&patch_ref) {
                let ghost k = patch_ref@;
                let ghost bv = bytes@;
                self.patch_entries.set(i, (patch_ref, bytes));
                proof {
                    lemma_files_map_update(old(self).patch_entries@, i as int, k, bv);
                    let e = self.patch_entries@[i as int];
                    assert(e.0@ == k && e.1@ == bv);
                    assert(self.patch_entries@ == old(self).patch_entries@.update(i as int, e));
                    assert forall|x: int, y: int|
                        0 <= x < y < self.patch_entries@.len() implies self.patch_entries@[x].0@
                        != self.patch_entries@[y].0@ by {
                        assert(old(self).patch_entries@[i as int].0@ == k);
                    }
                }
                return ;
            }
            i = i + 1;
        }
        let ghost k = patch_ref@;
        self.patch_entries.push((patch_ref, bytes));
        proof {
            assert(self.patch_entries@.drop_last() =~= old(self).patch_entries@);
            lemma_files_map_contains(old(self).patch_entries@, k);
            assert(self.patch_entries@[self.patch_entries@.len() - 1].0@ == k);
        }
    }
}

/// Replacing the entry at `i` with one carrying the same key updates the map.
pub proof fn lemma_files_map_update(s: Seq<(PatchRef, Vec<u8>)>, i: int, k: Seq<u8>, v: Seq<u8>)
    requires
        0 <= i < s.len(),
        forall|x: int, y: int| 0 <= x < y < s.len() ==> s[x].0@ != s[y].0@,
        s[i].0@ == k,
    ensures
        forall|e: (PatchRef, Vec<u8>)|
            e.0@ == k && e.1@ == v ==> files_map(#[trigger] s.update(i, e)) == files_map(s).insert(
                k,
                v,
            ),
    decreases s.len(),
{
    assert forall|e: (PatchRef, Vec<u8>)| e.0@ == k && e.1@ == v implies files_map(
        #[trigger] s.update(i, e),
    ) == files_map(s).insert(k, v) by {
        let t = s.update(i, e);
        if i == s.len() - 1 {
            assert(t.drop_last() =~= s.drop_last());
            assert(files_map(t) =~= files_map(s).insert(k, v));
        } else {
            assert(t.last() == s.last());
            assert(t.drop_last() =~= s.drop_last().update(i, e));
            lemma_files_map_update(s.drop_last(), i, k, v);
            assert(s.last().0@ != k);
            assert(files_map(t) =~= files_map(s).insert(k, v));
        }
    }
}

impl Store for MemStore {
    open spec fn patch_files(&self) -> Map<Seq<u8>, Seq<u8>> {
        files_map(self.patch_entries@)
    }

    open spec fn metas(&self) -> Map<Seq<char>, Set<Seq<u8>>> {
        metas_map(self.meta_records@)
    }

    open spec fn local_device(&self) -> Seq<char> {
        self.device_id@
    }

    open spec fn inv(&self) -> bool {
        self.wf()
    }

    fn device_id(&self) -> (r: String) {
        self.device_id.clone()
    }

    fn get_meta(&self, device_id: &String) -> (r: Meta) {
        let mut i: usize = 0;
        while i < self.meta_records.len()
            invariant
                i <= self.meta_records@.len(),
                self.inv(),
                forall|j: int| 0 <= j < i ==> self.meta_records@[j]@.device_id != device_id@,
            decreases self.meta_records@.len() - i,
        {
            if self.meta_records[i].device_id.eq(device_id) {
                proof {
                    lemma_metas_map_get(self.meta_records@, i as int);
                }
                return self.meta_records[i].clone_meta();
            }
            i = i + 1;
        }
        proof {
            lemma_metas_map_contains(self.meta_records@, device_id@);
        }
        Meta::new(device_id.clone())
    }

    fn save_meta(&mut self, meta: &Meta) -> (r: Result<(), StoreError>) {
        let mut i: usize = 0;
        while i < self.meta_records.len()
            invariant
                self == old(self),
                i <= self.meta_records@.len(),
                old(self).inv(),
                meta.inv(),
                forall|j: int| 0 <= j < i ==> self.meta_records@[j]@.device_id != meta@.device_id,
            decreases self.meta_records@.len() - i,
        {
            if self.meta_records[i].device_id.eq(&meta.device_id) {
                self.meta_records.set(i, meta.clone_meta());
                proof {
                    let m = self.meta_records@[i as int];
                    assert(m@ == meta@);
                    assert(self.meta_records@ == old(self).meta_records@.update(i as int, m));
                    lemma_metas_map_set(old(self).meta_records@, i as int, m);
                    assert(m.known_set() =~= meta.known_set());
                    assert forall|x: int, y: int|
                        0 <= x < y < self.meta_records@.len() implies self.meta_records@[x]@.device_id
                        != self.meta_records@[y]@.device_id by {
                        assert(old(self).meta_records@[i as int]@.device_id == meta@.device_id);
                    }
                }
                return Ok(());
            }
            i = i + 1;
        }
        self.meta_records.push(meta.clone_meta());
        proof {
            assert(self.meta_records@.drop_last() =~= old(self).meta_records@);
            lemma_metas_map_contains(old(self).meta_records@, meta@.device_id);
            assert(self.meta_records@[self.meta_records@.len() - 1]@.device_id == meta@.device_id);
            assert(self.meta_records@[self.meta_records@.len() - 1].known_set() =~= meta.known_set());
        }
        Ok(())
    }

    fn get_patch(&self, patch_ref: &PatchRef) -> (r: Result<Patch, StoreError>) {
        let mut i: usize = 0;
        while i < self.patch_entries.len()
            invariant
                i <= self.patch_entries@.len(),
                self.inv(),
                patch_ref.inv(),
                forall|j: int| 0 <= j < i ==> self.patch_entries@[j].0@ != patch_ref@,
            decreases self.patch_entries@.len() - i,
        {
            if self.patch_entries[i].0.eq_ref(patch_ref) {
                proof {
                    lemma_files_map_get(self.patch_entries@, i as int);
                }
                return match decode_patch_checked(patch_ref, &self.patch_entries[i].1) {
                    Some(p) => Ok(p),
                    None => Err(
                        StoreError::DeserializePatch {
                            patch_ref: crate::order::copy_bytes(patch_ref.as_bytes()),
                        },
                    ),
                };
            }
            i = i + 1;
        }
        proof {
            lemma_files_map_contains(self.patch_entries@, patch_ref@);
        }
        Err(StoreError::NotFound { patch_ref: crate::order::copy_bytes(patch_ref.as_bytes()) })
    }

    fn add_patch(&mut self, patch: &Patch) -> (r: Result<(), StoreError>) {
        let bytes = patch.encode();
        let mut i: usize = 0;
        while i < self.patch_entries.len()
            invariant
                self == old(self),
                i <= self.patch_entries@.len(),
                old(self).inv(),
                patch_wf(patch@),
                bytes@ == enc_patch(patch@),
                forall|j: int| 0 <= j < i ==> self.patch_entries@[j].0@ != patch@.patch_ref,
            decreases self.patch_entries@.len() - i,
        {
            if self.patch_entries[i].0.eq_ref(patch.patch_ref()) {
                proof {
                    lemma_files_map_get(self.patch_entries@, i as int);
                }
                if crate::order::bytes_eq(&self.patch_entries[i].1, &bytes) {
                    proof {
                        assert(files_map(self.patch_entries@) =~= files_map(
                            self.patch_entries@,
                        ).insert(patch@.patch_ref, enc_patch(patch@)));
                    }
                    return Ok(());
                } else {
                    return Err(
                        StoreError::PatchMismatch {
                            patch_ref: crate::order::copy_bytes(patch.patch_ref().as_bytes()),
                        },
                    );
                }
            }
            i = i + 1;
        }
        proof {
            lemma_files_map_contains(old(self).patch_entries@, patch@.patch_ref);
        }
        self.patch_entries.push((patch.patch_ref().clone_ref(), bytes));
        proof {
            assert(self.patch_entries@.drop_last() =~= old(self).patch_entries@);
            assert(self.patch_entries@[self.patch_entries@.len() - 1].0@ == patch@.patch_ref);
        }
        Ok(())
    }

    fn list_patch_refs(&self) -> (r: Vec<PatchRef>) {
        let mut out: Vec<PatchRef> = Vec::new();
        let mut i: usize = 0;
        while i < self.patch_entries.len()
            invariant
                i <= self.patch_entries@.len(),
                self.inv(),
                out@.len() == i,
                forall|j: int| 0 <= j < i ==> out@[j]@ == self.patch_entries@[j].0@,
            decreases self.patch_entries@.len() - i,
        {
            out.push(self.patch_entries[i].0.clone_ref());
            i = i + 1;
        }
        proof {
            assert forall|k: Seq<u8>| self.patch_files().contains_key(k) implies exists|i: int|
                0 <= i < out@.len() && #[trigger] out@[i]@ == k by {
                lemma_files_map_contains(self.patch_entries@, k);
                let i = choose|i: int|
                    0 <= i < self.patch_entries@.len() && #[trigger] self.patch_entries@[i].0@
                        == k;
                assert(out@[i]@ == k);
            }
            assert forall|i: int| 0 <= i < out@.len() implies self.patch_files().contains_key(
                #[trigger] out@[i]@,
            ) by {
                lemma_files_map_contains(self.patch_entries@, out@[i]@);
            }
        }
        out
    }

    fn list_device_ids(&self) -> (r: Vec<String>) {
        let mut out: Vec<String> = Vec::new();
        let mut i: usize = 0;
        while i < self.meta_records.len()
            invariant
                i <= self.meta_records@.len(),
                self.inv(),
                out@.len() == i,
                forall|j: int| 0 <= j < i ==> out@[j]@ == self.meta_records@[j]@.device_id,
            decreases self.meta_records@.len() - i,
        {
            out.push(self.meta_records[i].device_id.clone());
            i = i + 1;
        }
        proof {
            assert forall|k: Seq<char>| self.metas().contains_key(k) implies exists|i: int|
                0 <= i < out@.len() && #[trigger] out@[i]@ == k by {
                lemma_metas_map_contains(self.meta_records@, k);
                let i = choose|i: int|
                    0 <= i < self.meta_records@.len() && (#[trigger] self.meta_records@[i])@.device_id
                        == k;
                assert(out@[i]@ == k);
            }
            assert forall|i: int| 0 <= i < out@.len() implies self.metas().contains_key(
                #[trigger] out@[i]@,
            ) by {
                lemma_metas_map_contains(self.meta_records@, out@[i]@);
            }
        }
        out
    }
}

} // verus!
