//! Per-device record of which patches that device has already incorporated.
use vstd::prelude::*;
use crate::codec::be_bytes;
use crate::codec::enc_str;
use crate::patch::PatchRef;

verus! {

/// The mathematical value of a meta record.
#[verifier::ext_equal]
pub struct MetaView {
    pub device_id: Seq<char>,
    pub known: Seq<Seq<u8>>,
}

/// A device's record of incorporated patches. Grows monotonically.
#[derive(Debug)]
pub struct Meta {
    pub device_id: String,
    pub known_patches: Vec<PatchRef>,
}

impl View for Meta {
    type V = MetaView;

    open spec fn view(&self) -> MetaView {
        MetaView {
            device_id: self.device_id@,
            known: Seq::new(self.known_patches@.len(), |i: int| self.known_patches@[i]@),
        }
    }
}

impl Meta {
    /// No reference is recorded twice, and each is digest-sized.
    pub open spec fn inv(&self) -> bool {
        &&& forall|i: int, j: int|
            0 <= i < j < self@.known.len() ==> self@.known[i] != self@.known[j]
        &&& forall|i: int| 0 <= i < self@.known.len() ==> (#[trigger] self@.known[i]).len() == 32
    }

    /// The set of incorporated references.
    pub open spec fn known_set(&self) -> Set<Seq<u8>> {
        self@.known.to_set()
    }

    /// An empty record for a device that has incorporated nothing yet.
    pub fn new(device_id: String) -> (r: Meta)
        ensures
            r@.device_id == device_id@,
            r@.known == Seq::<Seq<u8>>::empty(),
            r.inv(),
            r.known_set() == Set::<Seq<u8>>::empty(),
    {
        let r = Meta { device_id, known_patches: Vec::new() };
        proof {
            assert(r@.known =~= Seq::<Seq<u8>>::empty());
            assert(r.known_set() =~= Set::<Seq<u8>>::empty());
        }
        r
    }

    pub fn contains(&self, patch_ref: &PatchRef) -> (r: bool)
        ensures
            r == self.known_set().contains(patch_ref@),
    {
        let mut i: usize = 0;
        while i < self.known_patches.len()
            invariant
                i <= self@.known.len(),
                forall|j: int| 0 <= j < i ==> self@.known[j] != patch_ref@,
            decreases self@.known.len() - i,
        {
            if self.known_patches[i].eq_ref(patch_ref) {
                proof {
                    assert(self@.known[i as int] == patch_ref@);
                    assert(self@.known.contains(patch_ref@));
                }
                return true;
            }
            i = i + 1;
        }
        proof {
            assert(!self@.known.contains(patch_ref@));
        }
        false
    }

    /// Records a reference; recording the same reference again changes
    /// nothing. The record never shrinks.
    pub fn insert(&mut self, patch_ref: PatchRef)
        requires
            old(self).inv(),
            patch_ref.inv(),
        ensures
            final(self).inv(),
            final(self)@.device_id == old(self)@.device_id,
            final(self).known_set() == old(self).known_set().insert(patch_ref@),
            old(self).known_set().contains(patch_ref@) ==> final(self)@ == old(self)@,
            !old(self).known_set().contains(patch_ref@) ==> final(self)@.known == old(
                self,
            )@.known.push(patch_ref@),
    {
        if self.contains(&patch_ref) {
            proof {
                assert(old(self).known_set().insert(patch_ref@) =~= old(self).known_set());
            }
            return ;
        }
        let ghost prv = patch_ref@;
        self.known_patches.push(patch_ref);
        proof {
            assert(self@.known =~= old(self)@.known.push(prv));
            assert forall|x: Seq<u8>| self.known_set().contains(x) implies old(
                self,
            ).known_set().insert(prv).contains(x) by {
                let i = choose|i: int| 0 <= i < self@.known.len() && self@.known[i] == x;
                if i < old(self)@.known.len() {
                    assert(old(self)@.known[i] == x);
                }
            }
            assert forall|x: Seq<u8>| old(self).known_set().insert(prv).contains(x) implies self
                .known_set().contains(x) by {
                if x == prv {
                    assert(self@.known[self@.known.len() - 1] == x);
                } else {
                    let i = choose|i: int|
                        0 <= i < old(self)@.known.len() && old(self)@.known[i] == x;
                    assert(self@.known[i] == x);
                }
            }
            assert(self.known_set() =~= old(self).known_set().insert(prv));
        }
    }

    pub fn clone_meta(&self) -> (r: Meta)
        ensures
            r@ == self@,
    {
        let mut known: Vec<PatchRef> = Vec::new();
        let mut i: usize = 0;
        while i < self.known_patches.len()
            invariant
                i <= self.known_patches@.len(),
                known@.len() == i,
                forall|j: int| 0 <= j < i ==> known@[j]@ == self.known_patches@[j]@,
            decreases self.known_patches@.len() - i,
        {
            known.push(self.known_patches[i].clone_ref());
            i = i + 1;
        }
        let r = Meta { device_id: self.device_id.clone(), known_patches: known };
        proof {
            assert(r@.known =~= self@.known);
        }
        r
    }
}

// ---------------------------------------------------------------------------
// The stored form of a meta record
// ---------------------------------------------------------------------------
/// Encoded reference list: each digest's raw bytes, in order.
pub open spec fn enc_refs(refs: Seq<Seq<u8>>) -> Seq<u8>
    decreases refs.len(),
{
    if refs.len() == 0 {
        Seq::empty()
    } else {
        refs.first() + enc_refs(refs.drop_first())
    }
}

pub proof fn lemma_enc_refs_concat(a: Seq<Seq<u8>>, b: Seq<Seq<u8>>)
    ensures
        enc_refs(a + b) == enc_refs(a) + enc_refs(b),
    decreases a.len(),
{
    if a.len() == 0 {
        assert(a + b =~= b);
        assert(enc_refs(a) + enc_refs(b) =~= enc_refs(b));
    } else {
        assert((a + b).drop_first() =~= a.drop_first() + b);
        assert((a + b).first() == a.first());
        lemma_enc_refs_concat(a.drop_first(), b);
        assert(a.first() + (enc_refs(a.drop_first()) + enc_refs(b)) =~= (a.first() + enc_refs(
            a.drop_first(),
        )) + enc_refs(b));
    }
}

/// A stored meta record: the device, the count, then the references.
pub open spec fn enc_meta(m: MetaView) -> Seq<u8> {
    enc_str(m.device_id) + be_bytes(m.known.len() as u64) + enc_refs(m.known)
}

/// Reading `n` digest-sized references, in spec form.
pub open spec fn parse_refs(b: Seq<u8>, i: int, n: int) -> Option<(Seq<Seq<u8>>, int)>
    decreases n,
{
    if n <= 0 {
        Some((Seq::empty(), i))
    } else if i < 0 || i + 32 > b.len() {
        None
    } else {
        match parse_refs(b, i + 32, n - 1) {
            None => None,
            Some((rest, j)) => Some((seq![b.subrange(i, i + 32)] + rest, j)),
        }
    }
}

/// Reading a whole meta record, in spec form.
pub open spec fn parse_meta(b: Seq<u8>) -> Option<MetaView> {
    match crate::codec::parse_str(b, 0) {
        None => None,
        Some((device_id, j)) => match crate::codec::parse_be(b, j) {
            None => None,
            Some((n, k)) => match parse_refs(b, k, n as int) {
                None => None,
                Some((known, m)) => if m == b.len() {
                    Some(MetaView { device_id, known })
                } else {
                    None
                },
            },
        },
    }
}

/// No reference appears twice.
pub open spec fn unique_refs(s: Seq<Seq<u8>>) -> bool {
    forall|i: int, j: int| 0 <= i < j < s.len() ==> s[i] != s[j]
}

pub proof fn lemma_parse_refs_at(b: Seq<u8>, i: int, refs: Seq<Seq<u8>>)
    requires
        0 <= i,
        forall|x: int| 0 <= x < refs.len() ==> (#[trigger] refs[x]).len() == 32,
        i + enc_refs(refs).len() <= b.len(),
        b.subrange(i, i + enc_refs(refs).len()) == enc_refs(refs),
    ensures
        parse_refs(b, i, refs.len() as int) == Some((refs, i + enc_refs(refs).len())),
    decreases refs.len(),
{
    if refs.len() == 0 {
        assert(refs =~= Seq::<Seq<u8>>::empty());
    } else {
        let first = refs.first();
        let rest = refs.drop_first();
        let l = enc_refs(refs).len() as int;
        assert(enc_refs(refs) == first + enc_refs(rest));
        assert(b.subrange(i, i + 32) =~= b.subrange(i, i + l).subrange(0, 32));
        assert(b.subrange(i, i + 32) =~= first);
        assert(b.subrange(i + 32, i + l) =~= b.subrange(i, i + l).subrange(32, l));
        assert(b.subrange(i + 32, i + l) =~= enc_refs(rest));
        assert(forall|x: int| 0 <= x < rest.len() ==> rest[x] == refs[x + 1]);
        lemma_parse_refs_at(b, i + 32, rest);
        assert(refs =~= seq![first] + rest);
    }
}

/// A well-formed meta record survives the store round trip.
pub proof fn lemma_meta_round_trip(m: MetaView)
    requires
        vstd::utf8::encode_utf8(m.device_id).len() <= usize::MAX,
        m.known.len() <= usize::MAX,
        forall|x: int| 0 <= x < m.known.len() ==> (#[trigger] m.known[x]).len() == 32,
    ensures
        parse_meta(enc_meta(m)) == Some(m),
{
    let b = enc_meta(m);
    let dl = enc_str(m.device_id).len() as int;
    let rl = enc_refs(m.known).len() as int;
    assert(b.len() == dl + 8 + rl);
    assert(b.subrange(0, dl) =~= enc_str(m.device_id));
    crate::codec::lemma_parse_str_at(b, 0, m.device_id);
    assert(b.subrange(dl, dl + 8) =~= be_bytes(m.known.len() as u64));
    crate::codec::lemma_be_value_of_be_bytes(m.known.len() as u64);
    assert(b.subrange(dl + 8, dl + 8 + rl) =~= enc_refs(m.known));
    lemma_parse_refs_at(b, dl + 8, m.known);
    assert((m.known.len() as u64) as int == m.known.len() as int);
    assert(parse_meta(b)->Some_0 =~= m);
}

impl Meta {
    /// The canonical stored form of this record.
    pub fn encode(&self) -> (r: Vec<u8>)
        ensures
            r@ == enc_meta(self@),
    {
        let mut out: Vec<u8> = Vec::new();
        crate::codec::push_str_enc(&mut out, &self.device_id);
        let count = self.known_patches.len();
        crate::codec::push_be(&mut out, count as u64);
        let ghost base = out@;
        let mut i: usize = 0;
        proof {
            assert(self@.known.take(0) =~= Seq::<Seq<u8>>::empty());
            assert(out@ =~= base + enc_refs(self@.known.take(0)));
        }
        while i < count
            invariant
                count == self.known_patches@.len(),
                i <= count,
                out@ == base + enc_refs(self@.known.take(i as int)),
            decreases count - i,
        {
            let rb = self.known_patches[i].as_bytes();
            let ghost mid = out@;
            let mut j: usize = 0;
            while j < rb.len()
                invariant
                    j <= rb@.len(),
                    rb@ == self.known_patches@[i as int]@,
                    i < self.known_patches@.len(),
                    out@ == mid + rb@.take(j as int),
                decreases rb@.len() - j,
            {
                out.push(rb[j]);
                proof {
                    assert(rb@.take(j as int + 1) =~= rb@.take(j as int).push(rb@[j as int]));
                    assert(out@ =~= mid + rb@.take(j as int + 1));
                }
                j = j + 1;
            }
            proof {
                assert(rb@.take(rb@.len() as int) =~= rb@);
                let known = self@.known;
                assert(known.take(i as int + 1) =~= known.take(i as int) + seq![known[i as int]]);
                lemma_enc_refs_concat(known.take(i as int), seq![known[i as int]]);
                assert(seq![known[i as int]].drop_first() =~= Seq::<Seq<u8>>::empty());
                assert(enc_refs(Seq::<Seq<u8>>::empty()) =~= Seq::<u8>::empty());
                assert(enc_refs(seq![known[i as int]]) =~= known[i as int]);
                assert(known[i as int] == self.known_patches@[i as int]@);
                assert(out@ =~= base + enc_refs(known.take(i as int + 1)));
            }
            i = i + 1;
        }
        proof {
            assert(self@.known.take(count as int) =~= self@.known);
            assert(out@ =~= enc_meta(self@));
        }
        out
    }

    /// Restores a record from its stored form. Succeeds exactly when the
    /// bytes parse as a meta record whose references are pairwise distinct.
    pub fn decode_meta(bytes: &Vec<u8>) -> (r: Option<Meta>)
        ensures
            r matches Some(m) ==> parse_meta(bytes@) == Some(m@) && m.inv(),
            r is None <==> (parse_meta(bytes@) is None || !unique_refs(
                parse_meta(bytes@)->Some_0.known,
            )),
    {
        let (device_id, j) = match crate::codec::read_str(bytes, 0) {
            Some(p) => p,
            None => {
                return None;
            },
        };
        let (count, k) = match crate::codec::read_be(bytes, j) {
            Some(p) => p,
            None => {
                return None;
            },
        };
        let mut known: Vec<PatchRef> = Vec::new();
        let mut cur: usize = k;
        let mut rem: u64 = count;
        proof {
            assert(crate::repository::ref_views(known@) =~= Seq::<Seq<u8>>::empty());
        }
        loop
            invariant
                crate::codec::parse_str(bytes@, 0) == Some((device_id@, j as int)),
                crate::codec::parse_be(bytes@, j as int) == Some((count, k as int)),
                parse_refs(bytes@, cur as int, rem as int) is None ==> parse_refs(
                    bytes@,
                    k as int,
                    count as int,
                ) is None,
                forall|rest: Seq<Seq<u8>>, m: int|
                    parse_refs(bytes@, cur as int, rem as int) == Some((rest, m)) ==> parse_refs(
                        bytes@,
                        k as int,
                        count as int,
                    ) == Some((crate::repository::ref_views(known@) + rest, m)),
                forall|x: int| 0 <= x < known@.len() ==> (#[trigger] known@[x])@.len() == 32,
                cur <= bytes@.len(),
            ensures
                parse_refs(bytes@, k as int, count as int) == Some(
                    (crate::repository::ref_views(known@), cur as int),
                ),
                forall|x: int| 0 <= x < known@.len() ==> (#[trigger] known@[x])@.len() == 32,
                cur <= bytes@.len(),
            decreases rem,
        {
            if rem == 0 {
                proof {
                    assert(parse_refs(bytes@, cur as int, 0) == Some(
                        (Seq::<Seq<u8>>::empty(), cur as int),
                    ));
                    assert(parse_refs(bytes@, k as int, count as int) == Some(
                        (crate::repository::ref_views(known@) + Seq::<Seq<u8>>::empty(),
                        cur as int),
                    ));
                    assert(crate::repository::ref_views(known@) + Seq::<Seq<u8>>::empty()
                        =~= crate::repository::ref_views(known@));
                }
                break ;
            }
            if bytes.len() - cur < 32 {
                return None;
            }
            let raw = vstd::slice::slice_to_vec(
                vstd::slice::slice_subrange(bytes.as_slice(), cur, cur + 32),
            );
            let pr = match PatchRef::from_bytes(raw) {
                Some(pr) => pr,
                None => {
                    proof {
                        assert(false);
                    }
                    return None;
                },
            };
            let ghost before = crate::repository::ref_views(known@);
            proof {
                let sv = bytes@.subrange(cur as int, cur as int + 32);
                assert forall|rest: Seq<Seq<u8>>, m: int|
                    parse_refs(bytes@, cur as int + 32, rem - 1) == Some((rest, m)) implies
                    parse_refs(bytes@, k as int, count as int) == Some(
                    (before.push(sv) + rest, m),
                ) by {
                    assert(parse_refs(bytes@, cur as int, rem as int) == Some(
                        (seq![sv] + rest, m),
                    ));
                    assert(before + (seq![sv] + rest) =~= before.push(sv) + rest);
                }
                assert(parse_refs(bytes@, cur as int + 32, rem - 1) is None ==> parse_refs(
                    bytes@,
                    cur as int,
                    rem as int,
                ) is None);
            }
            known.push(pr);
            proof {
                assert(crate::repository::ref_views(known@) =~= before.push(
                    bytes@.subrange(cur as int, cur as int + 32),
                ));
            }
            cur = cur + 32;
            rem = rem - 1;
        }
        if cur != bytes.len() {
            return None;
        }
        proof {
            assert(parse_meta(bytes@) matches Some(mv) && mv.device_id == device_id@ && mv.known
                == crate::repository::ref_views(known@));
        }
        // Reject a record that lists a reference twice.
        let mut a: usize = 0;
        while a < known.len()
            invariant
                forall|x: int, y: int|
                    0 <= x < y < known@.len() && x < a ==> known@[x]@ != known@[y]@,
                parse_meta(bytes@) matches Some(mv) && mv.known == crate::repository::ref_views(
                    known@,
                ) && mv.device_id == device_id@,
                forall|x: int| 0 <= x < known@.len() ==> (#[trigger] known@[x])@.len() == 32,
            decreases known@.len() - a,
        {
            let mut b2: usize = a + 1;
            while b2 < known.len()
                invariant
                    a < known@.len(),
                    a + 1 <= b2 <= known@.len(),
                    forall|y: int| a < y < b2 ==> known@[a as int]@ != (#[trigger] known@[y])@,
                    parse_meta(bytes@) matches Some(mv) && mv.known == crate::repository::ref_views(
                        known@,
                    ) && mv.device_id == device_id@,
                    forall|x: int| 0 <= x < known@.len() ==> (#[trigger] known@[x])@.len() == 32,
                decreases known@.len() - b2,
            {
                if known[a].eq_ref(&known[b2]) {
                    proof {
                        let mv = parse_meta(bytes@)->Some_0;
                        assert(mv.known[a as int] == mv.known[b2 as int]);
                        assert(!unique_refs(mv.known));
                    }
                    return None;
                }
                b2 = b2 + 1;
            }
            a = a + 1;
        }
        let m = Meta { device_id, known_patches: known };
        proof {
            let mv = parse_meta(bytes@)->Some_0;
            assert(m@.known =~= mv.known);
            assert(m@ =~= mv);
            assert(unique_refs(mv.known));
        }
        Some(m)
    }
}

} // verus!
