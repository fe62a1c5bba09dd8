//! The repository: a device's view of the shared patch log.
//!
//! It owns a store handle and the local device's meta record, accepts new
//! patches, and runs the synchronization protocol that pulls every patch
//! known anywhere into the local cache. Fetch failures are collected, not
//! fatal: a partial sync keeps its progress and the failed subset can be
//! retried on the next run.
use vstd::prelude::*;
use crate::meta::Meta;
use crate::order::lex_lt;
use crate::patch::Patch;
use crate::patch::PatchRef;
use crate::patch::PatchView;
use crate::patch::checked_patch;
use crate::patch::enc_patch;
use crate::patch::patch_wf;
use crate::patch::lemma_parse_patch_of_enc;
use crate::patch::lemma_patch_round_trip;
use crate::store::Store;
use crate::store::StoreError;
use crate::store::err_patch_ref;
use crate::timesheet::EventGraph;

verus! {

/// The views of a sequence of references.
pub open spec fn ref_views(s: Seq<PatchRef>) -> Seq<Seq<u8>> {
    Seq::new(s.len(), |i: int| s[i]@)
}

/// The references of a sequence of patches.
pub open spec fn patch_refs(s: Seq<Patch>) -> Seq<Seq<u8>> {
    Seq::new(s.len(), |i: int| s[i]@.patch_ref)
}

/// The views of a sequence of patches.
pub open spec fn patch_views(s: Seq<Patch>) -> Seq<PatchView> {
    Seq::new(s.len(), |i: int| s[i]@)
}

/// A reference under which the store holds a fetchable, integrity-checked
/// patch.
#[verifier::opaque]
pub open spec fn decodable(files: Map<Seq<u8>, Seq<u8>>, r: Seq<u8>) -> bool {
    files.contains_key(r) && checked_patch(r, files[r]) is Some
}

/// The patch a decodable reference resolves to.
#[verifier::opaque]
pub open spec fn stored_patch(files: Map<Seq<u8>, Seq<u8>>, r: Seq<u8>) -> PatchView {
    checked_patch(r, files[r])->Some_0
}

/// Every reference any device's meta record mentions.
pub open spec fn metas_union(metas: Map<Seq<char>, Set<Seq<u8>>>) -> Set<Seq<u8>> {
    Set::new(
        |r: Seq<u8>|
            exists|d: Seq<char>| #[trigger] metas.contains_key(d) && metas[d].contains(r),
    )
}

/// Everything a sync run tries to have locally: the local known set, every
/// other device's known set, and the store's full listing.
pub open spec fn sync_scope(
    known: Set<Seq<u8>>,
    metas: Map<Seq<char>, Set<Seq<u8>>>,
    files: Map<Seq<u8>, Seq<u8>>,
) -> Set<Seq<u8>> {
    known.union(metas_union(metas)).union(files.dom())
}

/// The references a sync run cannot resolve: in scope, but absent or
/// corrupt in the store.
pub open spec fn sync_failures(
    known: Set<Seq<u8>>,
    metas: Map<Seq<char>, Set<Seq<u8>>>,
    files: Map<Seq<u8>, Seq<u8>>,
) -> Set<Seq<u8>> {
    Set::new(|r: Seq<u8>| sync_scope(known, metas, files).contains(r) && !decodable(files, r))
}

/// A device's repository: the local meta record, a live store handle, and a
/// cache of every fetched patch in canonical (reference) order.
pub struct Repository<S: Store> {
    pub store: S,
    pub meta: Meta,
    pub patches: Vec<Patch>,
}

impl<S: Store> Repository<S> {
    /// The references of the cached patches.
    pub open spec fn cached_refs(&self) -> Set<Seq<u8>> {
        patch_refs(self.patches@).to_set()
    }

    pub open spec fn inv(&self) -> bool {
        &&& self.store.inv()
        &&& self.meta.inv()
        &&& self.meta@.device_id == self.store.local_device()
        &&& forall|i: int, j: int|
            0 <= i < j < self.patches@.len() ==> lex_lt(
                self.patches@[i]@.patch_ref,
                self.patches@[j]@.patch_ref,
            )
        &&& forall|i: int|
            0 <= i < self.patches@.len() ==> decodable(
                self.store.patch_files(),
                (#[trigger] self.patches@[i])@.patch_ref,
            ) && self.patches@[i]@ == stored_patch(
                self.store.patch_files(),
                self.patches@[i]@.patch_ref,
            ) && patch_wf(self.patches@[i]@)
        &&& forall|i: int|
            0 <= i < self.patches@.len() ==> self.meta.known_set().contains(
                (#[trigger] self.patches@[i])@.patch_ref,
            )
    }

    /// Opens a repository over a store, loading the local device's meta
    /// record (an empty one on first run). The cache starts empty; a sync
    /// fills it.
    pub fn from_store(store: S) -> (r: Repository<S>)
        requires
            store.inv(),
        ensures
            r.inv(),
            r.store == store,
            r.meta@.device_id == store.local_device(),
            r.meta.known_set() == if store.metas().contains_key(store.local_device()) {
                store.metas()[store.local_device()]
            } else {
                Set::<Seq<u8>>::empty()
            },
            r.patches@.len() == 0,
    {
        let device = store.device_id();
        let meta = store.get_meta(&device);
        Repository { store, meta, patches: Vec::new() }
    }

    /// Gives the store back, for handing the same shared folder to another
    /// repository instance.
    pub fn into_store(self) -> (r: S)
        ensures
            r == self.store,
    {
        self.store
    }

    /// Writes a new patch to the store, then records it locally. This is the
    /// only way new history enters the system. Fails exactly when the store
    /// already holds different content under the same reference.
    #[verifier::rlimit(50)]
    pub fn add_patch(&mut self, patch: Patch) -> (r: Result<(), StoreError>)
        requires
            old(self).inv(),
            patch_wf(patch@),
        ensures
            final(self).inv(),
            final(self).meta@.device_id == old(self).meta@.device_id,
            final(self).store.local_device() == old(self).store.local_device(),
            final(self).store.metas() == old(self).store.metas(),
            r matches Ok(()) ==> final(self).store.patch_files() == old(
                self,
            ).store.patch_files().insert(patch@.patch_ref, enc_patch(patch@)),
            r matches Ok(()) ==> final(self).meta.known_set() == old(self).meta.known_set().insert(
                patch@.patch_ref,
            ),
            r matches Ok(()) ==> final(self).cached_refs() == old(self).cached_refs().insert(
                patch@.patch_ref,
            ),
            r is Err <==> (old(self).store.patch_files().contains_key(patch@.patch_ref) && old(
                self,
            ).store.patch_files()[patch@.patch_ref] != enc_patch(patch@)),
            r is Err ==> final(self).store.patch_files() == old(self).store.patch_files()
                && final(self).meta@ == old(self).meta@ && final(self).patches@ == old(
                self,
            ).patches@,
            r matches Err(e) ==> err_patch_ref(e) == patch@.patch_ref,
    {
        match self.store.add_patch(&patch) {
            Ok(()) => {
                proof {
                    reveal(crate::repository::decodable);
                    reveal(crate::repository::stored_patch);
                    lemma_patch_round_trip(patch@);
                    assert forall|i: int|
                        0 <= i < old(self).patches@.len() implies decodable(
                        self.store.patch_files(),
                        (#[trigger] old(self).patches@[i])@.patch_ref,
                    ) && old(self).patches@[i]@ == stored_patch(
                        self.store.patch_files(),
                        old(self).patches@[i]@.patch_ref,
                    ) by {
                        let pr = old(self).patches@[i]@.patch_ref;
                        if pr == patch@.patch_ref {
                            lemma_patch_round_trip(old(self).patches@[i]@);
                        }
                    }
                }
                self.meta.insert(patch.patch_ref().clone_ref());
                insert_sorted(&mut self.patches, patch);
                proof {
                    reveal(crate::repository::decodable);
                    reveal(crate::repository::stored_patch);
                    let files = self.store.patch_files();
                    assert forall|i: int| 0 <= i < self.patches@.len() implies decodable(
                        files,
                        (#[trigger] self.patches@[i])@.patch_ref,
                    ) && self.patches@[i]@ == stored_patch(files, self.patches@[i]@.patch_ref)
                        && patch_wf(self.patches@[i]@) && self.meta.known_set().contains(
                        self.patches@[i]@.patch_ref,
                    ) by {
                        let p = self.patches@[i]@;
                        assert(patch_views(self.patches@)[i] == p);
                        assert(patch_views(self.patches@).contains(p));
                        if p != patch@ {
                            assert(patch_views(old(self).patches@).contains(p));
                            let j = choose|j: int|
                                0 <= j < patch_views(old(self).patches@).len() && patch_views(
                                    old(self).patches@,
                                )[j] == p;
                            assert(old(self).patches@[j]@ == p);
                        }
                    }
                    assert(self.cached_refs() =~= old(self).cached_refs().insert(
                        patch@.patch_ref,
                    ));
                }
                Ok(())
            },
            Err(e) => Err(e),
        }
    }

    /// Persists the local meta record.
    pub fn save_meta(&mut self) -> (r: Result<(), StoreError>)
        requires
            old(self).inv(),
        ensures
            final(self).inv(),
            final(self).meta@ == old(self).meta@,
            final(self).patches@ == old(self).patches@,
            final(self).store.patch_files() == old(self).store.patch_files(),
            final(self).store.local_device() == old(self).store.local_device(),
            r matches Ok(()) ==> final(self).store.metas() == old(self).store.metas().insert(
                old(self).meta@.device_id,
                old(self).meta.known_set(),
            ),
            r is Err ==> final(self).store.metas() == old(self).store.metas(),
    {
        self.store.save_meta(&self.meta)
    }

    /// The full currently-known patch set, ready for flattening.
    pub fn timesheet(&self) -> (r: EventGraph)
        requires
            self.inv(),
        ensures
            r.inv(),
            patch_views(r.patches@) == patch_views(self.patches@),
    {
        let mut copies: Vec<Patch> = Vec::new();
        let mut i: usize = 0;
        while i < self.patches.len()
            invariant
                self.inv(),
                i <= self.patches@.len(),
                copies@.len() == i,
                forall|j: int| 0 <= j < i ==> copies@[j]@ == self.patches@[j]@,
            decreases self.patches@.len() - i,
        {
            copies.push(self.patches[i].clone_patch());
            i = i + 1;
        }
        let r = EventGraph { patches: copies };
        proof {
            assert(patch_views(r.patches@) =~= patch_views(self.patches@));
        }
        r
    }
}

/// Inserts a patch into a reference-sorted cache, keeping the order and
/// dropping the insert if the reference is already present.
pub(crate) fn insert_sorted(patches: &mut Vec<Patch>, patch: Patch)
    requires
        forall|i: int, j: int|
            0 <= i < j < old(patches)@.len() ==> lex_lt(
                old(patches)@[i]@.patch_ref,
                old(patches)@[j]@.patch_ref,
            ),
        forall|i: int|
            0 <= i < old(patches)@.len() ==> (#[trigger] old(patches)@[i])@.patch_ref
                == patch@.patch_ref ==> old(patches)@[i]@ == patch@,
    ensures
        forall|i: int, j: int|
            0 <= i < j < final(patches)@.len() ==> lex_lt(
                final(patches)@[i]@.patch_ref,
                final(patches)@[j]@.patch_ref,
            ),
        forall|p: PatchView|
            patch_views(final(patches)@).contains(p) <==> (patch_views(old(patches)@).contains(p)
                || p == patch@),
        patch_views(final(patches)@).to_set() == patch_views(old(patches)@).to_set().insert(
            patch@,
        ),
        patch_refs(final(patches)@).to_set() == patch_refs(old(patches)@).to_set().insert(
            patch@.patch_ref,
        ),
{
    let n = patches.len();
    let mut i: usize = 0;
    loop
        invariant
            patches@ == old(patches)@,
            n == patches@.len(),
            i <= n,
            forall|x: int, y: int|
                0 <= x < y < patches@.len() ==> lex_lt(
                    patches@[x]@.patch_ref,
                    patches@[y]@.patch_ref,
                ),
            forall|j: int| 0 <= j < i ==> lex_lt(patches@[j]@.patch_ref, patch@.patch_ref),
        ensures
            patches@ == old(patches)@,
            i <= n,
            forall|j: int| 0 <= j < i ==> lex_lt(patches@[j]@.patch_ref, patch@.patch_ref),
            i < n ==> !lex_lt(patches@[i as int]@.patch_ref, patch@.patch_ref),
        decreases n - i,
    {
        if i >= n {
            break ;
        }
        if !patches[i].patch_ref().lt_ref(patch.patch_ref()) {
            break ;
        }
        i = i + 1;
    }
    if i < n {
        if patch.patch_ref().eq_ref(patches[i].patch_ref()) {
            proof {
                assert(old(patches)@[i as int]@.patch_ref == patch@.patch_ref);
                assert(patches@[i as int]@ == patch@);
                assert(patch_views(patches@)[i as int] == patch@);
                assert(patch_views(patches@).contains(patch@));
                assert(patch_views(patches@).to_set() =~= patch_views(
                    old(patches)@,
                ).to_set().insert(patch@));
                assert(patch_refs(patches@)[i as int] == patch@.patch_ref);
                assert(patch_refs(patches@).to_set() =~= patch_refs(old(patches)@).to_set().insert(
                    patch@.patch_ref,
                ));
            }
            return ;
        }
    }
    // Everything before `i` sits strictly below the new reference, and
    // everything from `i` on sits strictly above it.
    proof {
        assert forall|j: int| i <= j < patches@.len() implies lex_lt(
            patch@.patch_ref,
            patches@[j]@.patch_ref,
        ) by {
            crate::order::lemma_lex_lt_total(
                patches@[i as int]@.patch_ref,
                patch@.patch_ref,
            );
            assert(patches@[i as int]@.patch_ref != patch@.patch_ref);
            assert(lex_lt(patch@.patch_ref, patches@[i as int]@.patch_ref));
            if j > i {
                crate::order::lemma_lex_lt_transitive(
                    patch@.patch_ref,
                    patches@[i as int]@.patch_ref,
                    patches@[j]@.patch_ref,
                );
            }
        }
    }
    let ghost pv = patch@;
    let ghost oldview = patches@;
    patches.insert(i, patch);
    proof {
        assert(patches@.len() == oldview.len() + 1);
        assert(patches@[i as int]@ == pv);
        assert(forall|j: int| 0 <= j < i ==> patches@[j] == oldview[j]);
        assert(forall|j: int| i < j < patches@.len() ==> patches@[j] == oldview[j - 1]);
        assert forall|p: PatchView| #[trigger]
            patch_views(patches@).contains(p) implies (patch_views(oldview).contains(p) || p
            == pv) by {
            let j = choose|j: int|
                0 <= j < patch_views(patches@).len() && patch_views(patches@)[j] == p;
            if j < i {
                assert(patch_views(oldview)[j] == p);
            } else if j > i {
                assert(patch_views(oldview)[j - 1] == p);
            }
        }
        assert forall|p: PatchView|
            (patch_views(oldview).contains(p) || p == pv) implies #[trigger] patch_views(
            patches@,
        ).contains(p) by {
            if p == pv {
                assert(patch_views(patches@)[i as int] == p);
            } else {
                let j = choose|j: int|
                    0 <= j < patch_views(oldview).len() && patch_views(oldview)[j] == p;
                if j < i {
                    assert(patch_views(patches@)[j] == p);
                } else {
                    assert(patch_views(patches@)[j + 1] == p);
                }
            }
        }
        assert forall|r: Seq<u8>| #[trigger]
            patch_refs(patches@).contains(r) implies (patch_refs(oldview).contains(r) || r
            == pv.patch_ref) by {
            let j = choose|j: int|
                0 <= j < patch_refs(patches@).len() && patch_refs(patches@)[j] == r;
            if j < i {
                assert(patch_refs(oldview)[j] == r);
            } else if j > i {
                assert(patch_refs(oldview)[j - 1] == r);
            }
        }
        assert forall|r: Seq<u8>|
            (patch_refs(oldview).contains(r) || r == pv.patch_ref) implies #[trigger] patch_refs(
            patches@,
        ).contains(r) by {
            if r == pv.patch_ref {
                assert(patch_refs(patches@)[i as int] == r);
            } else {
                let j = choose|j: int|
                    0 <= j < patch_refs(oldview).len() && patch_refs(oldview)[j] == r;
                if j < i {
                    assert(patch_refs(patches@)[j] == r);
                } else {
                    assert(patch_refs(patches@)[j + 1] == r);
                }
            }
        }
        assert(patch_views(patches@).to_set() =~= patch_views(oldview).to_set().insert(pv));
        assert(patch_refs(patches@).to_set() =~= patch_refs(oldview).to_set().insert(pv.patch_ref));
    }
}

/// Whether a cache holds a patch under this reference.
fn cache_contains(patches: &Vec<Patch>, patch_ref: &PatchRef) -> (r: bool)
    ensures
        r == patch_refs(patches@).to_set().contains(patch_ref@),
{
    let mut i: usize = 0;
    while i < patches.len()
        invariant
            i <= patches@.len(),
            forall|j: int| 0 <= j < i ==> patches@[j]@.patch_ref != patch_ref@,
        decreases patches@.len() - i,
    {
        if patches[i].patch_ref().eq_ref(patch_ref) {
            proof {
                assert(patch_refs(patches@)[i as int] == patch_ref@);
                assert(patch_refs(patches@).contains(patch_ref@));
            }
            return true;
        }
        i = i + 1;
    }
    proof {
        assert forall|j: int| 0 <= j < patch_refs(patches@).len() implies patch_refs(patches@)[j]
            != patch_ref@ by {}
        assert(!patch_refs(patches@).contains(patch_ref@));
    }
    false
}

/// Whether a reference list already holds this reference.
fn ref_vec_contains(scope: &Vec<PatchRef>, r: &PatchRef) -> (found: bool)
    ensures
        found == ref_views(scope@).to_set().contains(r@),
{
    let mut j: usize = 0;
    while j < scope.len()
        invariant
            j <= scope@.len(),
            forall|x: int| 0 <= x < j ==> scope@[x]@ != r@,
        decreases scope@.len() - j,
    {
        if scope[j].eq_ref(r) {
            proof {
                assert(ref_views(scope@)[j as int] == r@);
                assert(ref_views(scope@).contains(r@));
            }
            return true;
        }
        j = j + 1;
    }
    proof {
        assert forall|x: int|
            0 <= x < ref_views(scope@).len() implies ref_views(scope@)[x] != r@ by {}
        assert(!ref_views(scope@).contains(r@));
    }
    false
}

/// Adds every reference not yet present, without introducing duplicates.
fn push_all_unique(scope: &mut Vec<PatchRef>, refs: &Vec<PatchRef>)
    requires
        forall|i: int, j: int| 0 <= i < j < old(scope)@.len() ==> old(scope)@[i]@ != old(scope)@[j]@,
        forall|i: int| 0 <= i < old(scope)@.len() ==> (#[trigger] old(scope)@[i]).inv(),
        forall|i: int| 0 <= i < refs@.len() ==> (#[trigger] refs@[i])@.len() == 32,
    ensures
        forall|i: int, j: int|
            0 <= i < j < final(scope)@.len() ==> final(scope)@[i]@ != final(scope)@[j]@,
        forall|i: int| 0 <= i < final(scope)@.len() ==> (#[trigger] final(scope)@[i]).inv(),
        forall|v: Seq<u8>|
            ref_views(old(scope)@).to_set().contains(v) ==> ref_views(
                final(scope)@,
            ).to_set().contains(v),
        forall|x: int|
            0 <= x < refs@.len() ==> ref_views(final(scope)@).to_set().contains(
                (#[trigger] refs@[x])@,
            ),
        forall|v: Seq<u8>|
            ref_views(final(scope)@).to_set().contains(v) ==> ref_views(
                old(scope)@,
            ).to_set().contains(v) || exists|x: int| 0 <= x < refs@.len() && (#[trigger] refs@[x])@
                == v,
{
    let mut i: usize = 0;
    while i < refs.len()
        invariant
            i <= refs@.len(),
            forall|x: int, y: int| 0 <= x < y < scope@.len() ==> scope@[x]@ != scope@[y]@,
            forall|x: int| 0 <= x < scope@.len() ==> (#[trigger] scope@[x]).inv(),
            forall|x: int| 0 <= x < refs@.len() ==> (#[trigger] refs@[x])@.len() == 32,
            forall|v: Seq<u8>|
                ref_views(old(scope)@).to_set().contains(v) ==> ref_views(
                    scope@,
                ).to_set().contains(v),
            forall|x: int|
                0 <= x < i ==> ref_views(scope@).to_set().contains((#[trigger] refs@[x])@),
            forall|v: Seq<u8>|
                ref_views(scope@).to_set().contains(v) ==> ref_views(
                    old(scope)@,
                ).to_set().contains(v) || exists|x: int|
                    0 <= x < refs@.len() && (#[trigger] refs@[x])@ == v,
        decreases refs@.len() - i,
    {
        let ghost before = scope@;
        let found = ref_vec_contains(scope, &refs[i]);
        if !found {
            proof {
                assert forall|x: int| 0 <= x < scope@.len() implies scope@[x]@
                    != refs@[i as int]@ by {
                    assert(ref_views(scope@)[x] == scope@[x]@);
                    assert(ref_views(scope@).to_set().contains(scope@[x]@));
                }
            }
            scope.push(refs[i].clone_ref());
            proof {
                assert(forall|x: int| 0 <= x < before.len() ==> scope@[x] == before[x]);
                assert(scope@[scope@.len() - 1]@ == refs@[i as int]@);
                assert forall|x: int, y: int|
                    0 <= x < y < scope@.len() implies scope@[x]@ != scope@[y]@ by {
                    if y == scope@.len() - 1 {
                        assert(ref_views(before)[x] == scope@[x]@);
                        assert(ref_views(before).contains(scope@[x]@));
                    }
                }
                assert forall|v: Seq<u8>|
                    ref_views(before).to_set().contains(v) implies ref_views(
                    scope@,
                ).to_set().contains(v) by {
                    let x = choose|x: int|
                        0 <= x < ref_views(before).len() && #[trigger] ref_views(before)[x] == v;
                    assert(ref_views(scope@)[x] == v);
                }
                assert(ref_views(scope@)[scope@.len() - 1] == refs@[i as int]@);
                assert(ref_views(scope@).to_set().contains(refs@[i as int]@));
                assert forall|v: Seq<u8>|
                    ref_views(scope@).to_set().contains(v) implies ref_views(
                    before,
                ).to_set().contains(v) || v == refs@[i as int]@ by {
                    let x = choose|x: int|
                        0 <= x < ref_views(scope@).len() && #[trigger] ref_views(scope@)[x] == v;
                    if x < before.len() {
                        assert(ref_views(before)[x] == v);
                    }
                }
            }
        }
        i = i + 1;
    }
}

impl<S: Store> Repository<S> {
    /// The references the store can currently resolve to checked patches.
    pub open spec fn resolvable(files: Map<Seq<u8>, Seq<u8>>) -> Set<Seq<u8>> {
        Set::new(|rf: Seq<u8>| decodable(files, rf))
    }

    /// Pulls every patch known anywhere into the local cache.
    ///
    /// The scope is the union of the local known set, every device's known
    /// set, and the store's full listing. Afterwards the cache holds exactly
    /// the store's resolvable patches, and the local known set has grown by
    /// them. Each reference in scope that the store cannot resolve yields
    /// one error carrying that reference; the rest of the sync still
    /// happens, and the failed subset can be retried later.
    #[verifier::rlimit(100)]
    pub fn try_sync_data(&mut self) -> (r: Result<(), Vec<StoreError>>)
        requires
            old(self).inv(),
        ensures
            final(self).inv(),
            final(self).store == old(self).store,
            final(self).meta@.device_id == old(self).meta@.device_id,
            forall|rf: Seq<u8>|
                final(self).cached_refs().contains(rf) <==> decodable(
                    old(self).store.patch_files(),
                    rf,
                ),
            forall|i: int|
                0 <= i < final(self).patches@.len() ==> (#[trigger] final(self).patches@[i])@
                    == stored_patch(
                    old(self).store.patch_files(),
                    final(self).patches@[i]@.patch_ref,
                ),
            final(self).meta.known_set() == old(self).meta.known_set().union(
                Self::resolvable(old(self).store.patch_files()),
            ),
            r is Ok <==> sync_scope(
                old(self).meta.known_set(),
                old(self).store.metas(),
                old(self).store.patch_files(),
            ).subset_of(Self::resolvable(old(self).store.patch_files())),
            r matches Err(es) ==> es@.len() >= 1 && (forall|k: int|
                0 <= k < es@.len() ==> sync_failures(
                    old(self).meta.known_set(),
                    old(self).store.metas(),
                    old(self).store.patch_files(),
                ).contains(#[trigger] err_patch_ref(es@[k]))) && (forall|rf: Seq<u8>|
                sync_failures(
                    old(self).meta.known_set(),
                    old(self).store.metas(),
                    old(self).store.patch_files(),
                ).contains(rf) ==> exists|k: int|
                    0 <= k < es@.len() && #[trigger] err_patch_ref(es@[k]) == rf) && (forall|
                k1: int,
                k2: int,
            |
                0 <= k1 < k2 < es@.len() ==> err_patch_ref(es@[k1]) != err_patch_ref(es@[k2])),
    {
        let ghost files = old(self).store.patch_files();
        let ghost metasm = old(self).store.metas();
        let ghost known0 = old(self).meta.known_set();
        let ghost scope_set = sync_scope(known0, metasm, files);

        // Gather the scope: local known refs, every device's known refs, and
        // the store's full listing, deduplicated.
        let mut scope: Vec<PatchRef> = Vec::new();
        proof {
            assert forall|x: int| 0 <= x < self.meta.known_patches@.len() implies (
            #[trigger] self.meta.known_patches@[x])@.len() == 32 by {
                assert(self.meta@.known[x] == self.meta.known_patches@[x]@);
            }
        }
        push_all_unique(&mut scope, &self.meta.known_patches);
        proof {
            assert forall|v: Seq<u8>| known0.contains(v) implies ref_views(
                scope@,
            ).to_set().contains(v) by {
                let x = choose|x: int|
                    0 <= x < old(self).meta@.known.len() && old(self).meta@.known[x] == v;
                assert(self.meta.known_patches@[x]@ == v);
                assert(ref_views(self.meta.known_patches@)[x] == v);
                assert(ref_views(self.meta.known_patches@).to_set().contains(v));
            }
            assert forall|v: Seq<u8>| ref_views(scope@).to_set().contains(v) implies
                known0.contains(v) by {
                if !ref_views(Seq::<PatchRef>::empty()).to_set().contains(v) {
                    let x = choose|x: int|
                        0 <= x < self.meta.known_patches@.len() && (
                        #[trigger] self.meta.known_patches@[x])@ == v;
                    assert(self.meta@.known[x] == v);
                }
            }
        }
        let device_ids = self.store.list_device_ids();
        let mut di: usize = 0;
        while di < device_ids.len()
            invariant
                self == old(self),
                old(self).inv(),
                files == old(self).store.patch_files(),
                metasm == old(self).store.metas(),
                known0 == old(self).meta.known_set(),
                scope_set == sync_scope(known0, metasm, files),
                di <= device_ids@.len(),
                forall|x: int, y: int| 0 <= x < y < scope@.len() ==> scope@[x]@ != scope@[y]@,
                forall|x: int| 0 <= x < scope@.len() ==> (#[trigger] scope@[x]).inv(),
                forall|x: int|
                    0 <= x < device_ids@.len() ==> metasm.contains_key(#[trigger] device_ids@[x]@),
                known0.subset_of(ref_views(scope@).to_set()),
                ref_views(scope@).to_set().subset_of(scope_set),
                forall|x: int|
                    0 <= x < di ==> metasm[(#[trigger] device_ids@[x])@].subset_of(
                        ref_views(scope@).to_set(),
                    ),
            decreases device_ids@.len() - di,
        {
            let ghost before = ref_views(scope@).to_set();
            let m = self.store.get_meta(&device_ids[di]);
            proof {
                assert(metasm.contains_key(device_ids@[di as int]@));
                assert(m.known_set() == metasm[device_ids@[di as int]@]);
                assert(ref_views(m.known_patches@).to_set() =~= m.known_set());
                assert forall|rf: Seq<u8>| m.known_set().contains(rf) implies scope_set.contains(
                    rf,
                ) by {
                    assert(metasm.contains_key(device_ids@[di as int]@) && metasm[device_ids@[di
                        as int]@].contains(rf));
                    assert(metas_union(metasm).contains(rf));
                }
            }
            proof {
                assert forall|x: int| 0 <= x < m.known_patches@.len() implies (
                #[trigger] m.known_patches@[x])@.len() == 32 by {
                    assert(m@.known[x] == m.known_patches@[x]@);
                }
            }
            push_all_unique(&mut scope, &m.known_patches);
            proof {
                assert forall|rf: Seq<u8>| m.known_set().contains(rf) implies ref_views(
                    scope@,
                ).to_set().contains(rf) by {
                    let x = choose|x: int| 0 <= x < m@.known.len() && m@.known[x] == rf;
                    assert(m.known_patches@[x]@ == rf);
                }
                assert forall|rf: Seq<u8>| ref_views(scope@).to_set().contains(rf) implies
                    scope_set.contains(rf) by {
                    if !before.contains(rf) {
                        let x = choose|x: int|
                            0 <= x < m.known_patches@.len() && (#[trigger] m.known_patches@[x])@
                                == rf;
                        assert(m@.known[x] == rf);
                        assert(m.known_set().contains(rf));
                    }
                }
                assert forall|x: int|
                    0 <= x < di + 1 implies metasm[(#[trigger] device_ids@[x])@].subset_of(
                    ref_views(scope@).to_set(),
                ) by {
                    if x < di {
                        assert forall|rf: Seq<u8>|
                            metasm[device_ids@[x]@].contains(rf) implies ref_views(
                            scope@,
                        ).to_set().contains(rf) by {
                            assert(before.contains(rf));
                        }
                    } else {
                        assert(metasm[device_ids@[x]@] == m.known_set());
                    }
                }
            }
            di = di + 1;
        }
        let listed = self.store.list_patch_refs();
        proof {
            assert forall|rf: Seq<u8>| files.dom().contains(rf) implies ref_views(
                listed@,
            ).to_set().contains(rf) by {
                let x = choose|x: int| 0 <= x < listed@.len() && #[trigger] listed@[x]@ == rf;
                assert(ref_views(listed@)[x] == rf);
            }
            assert forall|rf: Seq<u8>| ref_views(listed@).to_set().contains(rf) implies
                files.dom().contains(rf) by {
                let x = choose|x: int|
                    0 <= x < ref_views(listed@).len() && ref_views(listed@)[x] == rf;
                assert(listed@[x]@ == rf);
            }
            assert(ref_views(listed@).to_set() =~= files.dom());
        }
        push_all_unique(&mut scope, &listed);
        proof {
            assert forall|rf: Seq<u8>| scope_set.contains(rf) implies ref_views(
                scope@,
            ).to_set().contains(rf) by {
                if known0.contains(rf) {
                } else if metas_union(metasm).contains(rf) {
                    let d = choose|d: Seq<char>| #[trigger]
                        metasm.contains_key(d) && metasm[d].contains(rf);
                    let x = choose|x: int|
                        0 <= x < device_ids@.len() && #[trigger] device_ids@[x]@ == d;
                }
            }
            assert(ref_views(scope@).to_set() =~= scope_set);
        }

        // Fetch whatever is not cached yet; collect one error per failure.
        let mut errors: Vec<StoreError> = Vec::new();
        let mut k: usize = 0;
        while k < scope.len()
            invariant
                self.store == old(self).store,
                old(self).inv(),
                files == old(self).store.patch_files(),
                metasm == old(self).store.metas(),
                known0 == old(self).meta.known_set(),
                scope_set == sync_scope(known0, metasm, files),
                self.meta.inv(),
                self.meta@.device_id == old(self).meta@.device_id,
                k <= scope@.len(),
                forall|x: int, y: int| 0 <= x < y < scope@.len() ==> scope@[x]@ != scope@[y]@,
                forall|x: int| 0 <= x < scope@.len() ==> (#[trigger] scope@[x]).inv(),
                ref_views(scope@).to_set() == scope_set,
                // cache shape
                forall|i: int, j: int|
                    0 <= i < j < self.patches@.len() ==> lex_lt(
                        self.patches@[i]@.patch_ref,
                        self.patches@[j]@.patch_ref,
                    ),
                forall|i: int|
                    0 <= i < self.patches@.len() ==> decodable(
                        files,
                        (#[trigger] self.patches@[i])@.patch_ref,
                    ) && self.patches@[i]@ == stored_patch(
                        files,
                        self.patches@[i]@.patch_ref,
                    ) && patch_wf(self.patches@[i]@),
                forall|i: int|
                    0 <= i < self.patches@.len() ==> self.meta.known_set().contains(
                        (#[trigger] self.patches@[i])@.patch_ref,
                    ),
                // progress
                forall|rf: Seq<u8>|
                    old(self).cached_refs().contains(rf) ==> self.cached_refs().contains(rf),
                forall|j: int|
                    0 <= j < k ==> decodable(files, (#[trigger] scope@[j])@) ==> self
                        .cached_refs().contains(scope@[j]@),
                // known bookkeeping
                known0.subset_of(self.meta.known_set()),
                self.meta.known_set().subset_of(known0.union(Self::resolvable(files))),
                forall|rf: Seq<u8>|
                    self.meta.known_set().contains(rf) && !known0.contains(rf) ==> self
                        .cached_refs().contains(rf),
                // errors bookkeeping
                forall|x: int|
                    0 <= x < errors@.len() ==> sync_failures(known0, metasm, files).contains(
                        #[trigger] err_patch_ref(errors@[x]),
                    ),
                forall|x1: int, x2: int|
                    0 <= x1 < x2 < errors@.len() ==> err_patch_ref(errors@[x1]) != err_patch_ref(
                        errors@[x2],
                    ),
                forall|j: int|
                    0 <= j < k && !decodable(files, (#[trigger] scope@[j])@) ==> exists|x: int|
                        0 <= x < errors@.len() && #[trigger] err_patch_ref(errors@[x])
                            == scope@[j]@,
                forall|x: int|
                    0 <= x < errors@.len() ==> exists|j: int|
                        0 <= j < k && #[trigger] err_patch_ref(errors@[x]) == scope@[j]@,
            decreases scope@.len() - k,
        {
            let already = cache_contains(&self.patches, &scope[k]);
            if already {
                proof {
                    let j = choose|j: int|
                        0 <= j < patch_refs(self.patches@).len() && patch_refs(self.patches@)[j]
                            == scope@[k as int]@;
                    assert(self.patches@[j]@.patch_ref == scope@[k as int]@);
                    assert(decodable(files, scope@[k as int]@));
                }
            }
            if !already {
                match self.store.get_patch(&scope[k]) {
                    Ok(p) => {
                        proof {
                            assert(decodable(files, scope@[k as int]@) && p@ == stored_patch(
                                files,
                                scope@[k as int]@,
                            )) by {
                                reveal(crate::repository::decodable);
                                reveal(crate::repository::stored_patch);
                            }
                        }
                        self.absorb_fetched(p, Ghost(files));
                    },
                    Err(e) => {
                        proof {
                            assert(err_patch_ref(e) == scope@[k as int]@);
                            assert(!decodable(files, scope@[k as int]@)) by {
                                reveal(crate::repository::decodable);
                            }
                            assert(scope_set.contains(scope@[k as int]@)) by {
                                assert(ref_views(scope@)[k as int] == scope@[k as int]@);
                                assert(ref_views(scope@).contains(scope@[k as int]@));
                            }
                            assert forall|x: int| 0 <= x < errors@.len() implies err_patch_ref(
                                errors@[x],
                            ) != err_patch_ref(e) by {
                                let j = choose|j: int|
                                    0 <= j < k && #[trigger] err_patch_ref(errors@[x])
                                        == scope@[j]@;
                                assert(scope@[j]@ != scope@[k as int]@);
                            }
                        }
                        let ghost olderrors = errors@;
                        errors.push(e);
                        proof {
                            assert(errors@[errors@.len() - 1] == e);
                            assert forall|j: int|
                                0 <= j < k + 1 && !decodable(
                                    files,
                                    (#[trigger] scope@[j])@,
                                ) implies exists|x: int|
                                0 <= x < errors@.len() && #[trigger] err_patch_ref(errors@[x])
                                    == scope@[j]@ by {
                                if j == k {
                                    assert(err_patch_ref(errors@[errors@.len() - 1])
                                        == scope@[j]@);
                                } else {
                                    let x = choose|x: int|
                                        0 <= x < olderrors.len() && #[trigger] err_patch_ref(
                                            olderrors[x],
                                        ) == scope@[j]@;
                                    assert(errors@[x] == olderrors[x]);
                                    assert(err_patch_ref(errors@[x]) == scope@[j]@);
                                }
                            }
                        }
                    },
                }
            }
            k = k + 1;
        }
        proof {
            // cache == resolvable set
            assert forall|rf: Seq<u8>| decodable(files, rf) implies self.cached_refs().contains(
                rf,
            ) by {
                if !old(self).cached_refs().contains(rf) {
                    assert(files.dom().contains(rf)) by {
                        reveal(crate::repository::decodable);
                    }
                    assert(scope_set.contains(rf));
                    assert(ref_views(scope@).to_set().contains(rf));
                    let j = choose|j: int|
                        0 <= j < ref_views(scope@).len() && ref_views(scope@)[j] == rf;
                    assert(scope@[j]@ == rf);
                } else {
                    let j = choose|j: int|
                        0 <= j < patch_refs(old(self).patches@).len() && patch_refs(
                            old(self).patches@,
                        )[j] == rf;
                    assert(old(self).patches@[j]@.patch_ref == rf);
                    assert(decodable(files, rf));
                }
            }
            assert forall|rf: Seq<u8>| self.cached_refs().contains(rf) implies decodable(
                files,
                rf,
            ) by {
                let j = choose|j: int|
                    0 <= j < patch_refs(self.patches@).len() && patch_refs(self.patches@)[j] == rf;
                assert(self.patches@[j]@.patch_ref == rf);
            }
            // known == known0 union resolvable
            assert forall|rf: Seq<u8>|
                known0.union(Self::resolvable(files)).contains(rf) implies self
                .meta.known_set().contains(rf) by {
                if !known0.contains(rf) {
                    assert(decodable(files, rf));
                    assert(self.cached_refs().contains(rf));
                    let j = choose|j: int|
                        0 <= j < patch_refs(self.patches@).len() && patch_refs(self.patches@)[j]
                            == rf;
                    assert(self.patches@[j]@.patch_ref == rf);
                }
            }
            assert(self.meta.known_set() =~= known0.union(Self::resolvable(files)));
        }
        if errors.len() == 0 {
            proof {
                assert forall|rf: Seq<u8>| scope_set.contains(rf) implies decodable(
                    files,
                    rf,
                ) by {
                    let j = choose|j: int|
                        0 <= j < ref_views(scope@).len() && ref_views(scope@)[j] == rf;
                    assert(scope@[j]@ == rf);
                    if !decodable(files, rf) {
                        assert(exists|x: int|
                            0 <= x < errors@.len() && #[trigger] err_patch_ref(errors@[x]) == rf);
                    }
                }
            }
            Ok(())
        } else {
            proof {
                let bad = err_patch_ref(errors@[0]);
                assert(sync_failures(known0, metasm, files).contains(bad));
                assert(!decodable(files, bad));
                assert(!sync_scope(known0, metasm, files).subset_of(Self::resolvable(files)));
                assert forall|rf: Seq<u8>|
                    sync_failures(known0, metasm, files).contains(rf) implies exists|x: int|
                    0 <= x < errors@.len() && #[trigger] err_patch_ref(errors@[x]) == rf by {
                    assert(scope_set.contains(rf));
                    let j = choose|j: int|
                        0 <= j < ref_views(scope@).len() && ref_views(scope@)[j] == rf;
                    assert(scope@[j]@ == rf);
                    assert(!decodable(files, scope@[j]@));
                }
            }
            Err(errors)
        }
    }
}

impl<S: Store> Repository<S> {
    /// Records one fetched patch: marks it known and caches it in order.
    fn absorb_fetched(&mut self, p: Patch, Ghost(files): Ghost<Map<Seq<u8>, Seq<u8>>>)
        requires
            old(self).meta.inv(),
            patch_wf(p@),
            decodable(files, p@.patch_ref),
            p@ == stored_patch(files, p@.patch_ref),
            !old(self).cached_refs().contains(p@.patch_ref),
            forall|i: int, j: int|
                0 <= i < j < old(self).patches@.len() ==> lex_lt(
                    old(self).patches@[i]@.patch_ref,
                    old(self).patches@[j]@.patch_ref,
                ),
            forall|i: int|
                0 <= i < old(self).patches@.len() ==> decodable(
                    files,
                    (#[trigger] old(self).patches@[i])@.patch_ref,
                ) && old(self).patches@[i]@ == stored_patch(
                    files,
                    old(self).patches@[i]@.patch_ref,
                ) && patch_wf(old(self).patches@[i]@),
            forall|i: int|
                0 <= i < old(self).patches@.len() ==> old(self).meta.known_set().contains(
                    (#[trigger] old(self).patches@[i])@.patch_ref,
                ),
        ensures
            final(self).store == old(self).store,
            final(self).meta.inv(),
            final(self).meta@.device_id == old(self).meta@.device_id,
            final(self).meta.known_set() == old(self).meta.known_set().insert(p@.patch_ref),
            final(self).cached_refs() == old(self).cached_refs().insert(p@.patch_ref),
            forall|i: int, j: int|
                0 <= i < j < final(self).patches@.len() ==> lex_lt(
                    final(self).patches@[i]@.patch_ref,
                    final(self).patches@[j]@.patch_ref,
                ),
            forall|i: int|
                0 <= i < final(self).patches@.len() ==> decodable(
                    files,
                    (#[trigger] final(self).patches@[i])@.patch_ref,
                ) && final(self).patches@[i]@ == stored_patch(
                    files,
                    final(self).patches@[i]@.patch_ref,
                ) && patch_wf(final(self).patches@[i]@),
            forall|i: int|
                0 <= i < final(self).patches@.len() ==> final(self).meta.known_set().contains(
                    (#[trigger] final(self).patches@[i])@.patch_ref,
                ),
    {
        proof {
            assert forall|i: int|
                0 <= i < self.patches@.len() implies (#[trigger] self.patches@[i])@.patch_ref
                != p@.patch_ref by {
                assert(patch_refs(self.patches@)[i] == self.patches@[i]@.patch_ref);
                assert(patch_refs(self.patches@).contains(self.patches@[i]@.patch_ref));
            }
        }
        self.meta.insert(p.patch_ref().clone_ref());
        insert_sorted(&mut self.patches, p);
        proof {
            assert forall|i: int| 0 <= i < self.patches@.len() implies decodable(
                files,
                (#[trigger] self.patches@[i])@.patch_ref,
            ) && self.patches@[i]@ == stored_patch(files, self.patches@[i]@.patch_ref)
                && patch_wf(self.patches@[i]@) && self.meta.known_set().contains(
                self.patches@[i]@.patch_ref,
            ) by {
                let pv = self.patches@[i]@;
                assert(patch_views(self.patches@)[i] == pv);
                assert(patch_views(self.patches@).contains(pv));
                if pv != p@ {
                    assert(patch_views(old(self).patches@).contains(pv));
                    let j = choose|j: int|
                        0 <= j < patch_views(old(self).patches@).len() && patch_views(
                            old(self).patches@,
                        )[j] == pv;
                    assert(old(self).patches@[j]@ == pv);
                }
            }
            assert(self.cached_refs() =~= old(self).cached_refs().insert(p@.patch_ref));
        }
    }
}

/// Adding a patch is idempotent: once a patch is stored, storing the same
/// patch again meets the store's success condition and leaves the stored
/// patch files exactly as they were, so the patch count cannot change.
pub proof fn lemma_add_patch_idempotent(files: Map<Seq<u8>, Seq<u8>>, p: PatchView)
    ensures
        !(files.insert(p.patch_ref, enc_patch(p)).contains_key(p.patch_ref) && files.insert(
            p.patch_ref,
            enc_patch(p),
        )[p.patch_ref] != enc_patch(p)),
        files.insert(p.patch_ref, enc_patch(p)).insert(p.patch_ref, enc_patch(p)) == files.insert(
            p.patch_ref,
            enc_patch(p),
        ),
{
    assert(files.insert(p.patch_ref, enc_patch(p)).insert(p.patch_ref, enc_patch(p))
        =~= files.insert(p.patch_ref, enc_patch(p)));
}

/// Synchronization converges: two repositories whose caches each hold
/// exactly the resolvable patches of the same shared store — which is what
/// `try_sync_data` leaves behind, whatever disjoint subsets the devices
/// started from — hold identical patch sequences, and therefore flatten to
/// identical views.
pub proof fn lemma_sync_convergence(
    s1: Seq<Patch>,
    s2: Seq<Patch>,
    files: Map<Seq<u8>, Seq<u8>>,
)
    requires
        forall|i: int, j: int|
            0 <= i < j < s1.len() ==> lex_lt(s1[i]@.patch_ref, s1[j]@.patch_ref),
        forall|i: int, j: int|
            0 <= i < j < s2.len() ==> lex_lt(s2[i]@.patch_ref, s2[j]@.patch_ref),
        forall|rf: Seq<u8>| patch_refs(s1).to_set().contains(rf) <==> decodable(files, rf),
        forall|rf: Seq<u8>| patch_refs(s2).to_set().contains(rf) <==> decodable(files, rf),
        forall|i: int|
            0 <= i < s1.len() ==> (#[trigger] s1[i])@ == stored_patch(files, s1[i]@.patch_ref),
        forall|i: int|
            0 <= i < s2.len() ==> (#[trigger] s2[i])@ == stored_patch(files, s2[i]@.patch_ref),
    ensures
        patch_views(s1) == patch_views(s2),
{
    let v1 = patch_views(s1);
    let v2 = patch_views(s2);
    assert forall|p: PatchView| v1.to_set().contains(p) implies v2.to_set().contains(p) by {
        let i = choose|i: int| 0 <= i < v1.len() && v1[i] == p;
        assert(s1[i]@ == p);
        assert(patch_refs(s1)[i] == p.patch_ref);
        assert(patch_refs(s1).to_set().contains(p.patch_ref));
        assert(decodable(files, p.patch_ref));
        assert(patch_refs(s2).to_set().contains(p.patch_ref));
        let j = choose|j: int|
            0 <= j < patch_refs(s2).len() && patch_refs(s2)[j] == p.patch_ref;
        assert(s2[j]@.patch_ref == p.patch_ref);
        assert(s2[j]@ == stored_patch(files, p.patch_ref));
        assert(s1[i]@ == stored_patch(files, p.patch_ref));
        assert(v2[j] == p);
    }
    assert forall|p: PatchView| v2.to_set().contains(p) implies v1.to_set().contains(p) by {
        let i = choose|i: int| 0 <= i < v2.len() && v2[i] == p;
        assert(s2[i]@ == p);
        assert(patch_refs(s2)[i] == p.patch_ref);
        assert(patch_refs(s2).to_set().contains(p.patch_ref));
        assert(decodable(files, p.patch_ref));
        assert(patch_refs(s1).to_set().contains(p.patch_ref));
        let j = choose|j: int|
            0 <= j < patch_refs(s1).len() && patch_refs(s1)[j] == p.patch_ref;
        assert(s1[j]@.patch_ref == p.patch_ref);
        assert(s1[j]@ == stored_patch(files, p.patch_ref));
        assert(s2[i]@ == stored_patch(files, p.patch_ref));
        assert(v1[j] == p);
    }
    assert(v1.to_set() =~= v2.to_set());
    assert forall|i: int, j: int|
        0 <= i < j < v1.len() implies lex_lt(v1[i].patch_ref, v1[j].patch_ref) by {
        assert(v1[i] == s1[i]@);
        assert(v1[j] == s1[j]@);
    }
    assert forall|i: int, j: int|
        0 <= i < j < v2.len() implies lex_lt(v2[i].patch_ref, v2[j].patch_ref) by {
        assert(v2[i] == s2[i]@);
        assert(v2[j] == s2[j]@);
    }
    crate::timesheet::lemma_canonical_unique(v1, v2);
}

} // verus!
