//! The patch object model: immutable, content-addressed units of change.
//!
//! A patch's reference is the digest of its encoded body, so two devices
//! that independently produce bit-identical operations collapse to the same
//! reference, which makes merging idempotent.
use vstd::prelude::*;
use vstd::utf8::encode_utf8;
use vstd::utf8::valid_utf8;
use vstd::utf8::decode_utf8;
use crate::codec::be_bytes;
use crate::codec::be_value;
use crate::codec::enc_str;
use crate::codec::push_be;
use crate::codec::push_str_enc;
use crate::codec::read_be;
use crate::codec::read_str;

verus! {

/// The digest of a patch body; 32 bytes.
pub uninterp spec fn digest_of(bytes: Seq<u8>) -> Seq<u8>;

/// Relies on sha2::Sha256: the digest has 32 bytes and depends on the input
/// bytes alone.
#[verifier::external_body]
pub fn sha256(bytes: &Vec<u8>) -> (r: Vec<u8>)
    ensures
        r@ == digest_of(bytes@),
        r@.len() == 32,
{
    let d = <sha2::Sha256 as sha2::Digest>::digest(bytes.as_slice());
    d.as_slice().to_vec()
}

/// A content hash identifying a patch.
#[derive(Debug)]
pub struct PatchRef {
    pub bytes: Vec<u8>,
}

impl View for PatchRef {
    type V = Seq<u8>;

    open spec fn view(&self) -> Seq<u8> {
        self.bytes@
    }
}

impl PatchRef {
    /// A reference is exactly one digest long.
    pub open spec fn inv(&self) -> bool {
        self@.len() == 32
    }

    /// Wraps raw digest bytes; rejects anything that is not digest-sized.
    pub fn from_bytes(bytes: Vec<u8>) -> (r: Option<PatchRef>)
        ensures
            r matches Some(pr) ==> pr@ == bytes@ && pr.inv(),
            r is Some <==> bytes@.len() == 32,
    {
        if bytes.len() == 32 {
            Some(PatchRef { bytes })
        } else {
            None
        }
    }

    pub fn as_bytes(&self) -> (r: &Vec<u8>)
        ensures
            r@ == self@,
    {
        &self.bytes
    }

    pub fn clone_ref(&self) -> (r: PatchRef)
        ensures
            r@ == self@,
    {
        PatchRef { bytes: crate::order::copy_bytes(&self.bytes) }
    }

    pub fn eq_ref(&self, other: &PatchRef) -> (r: bool)
        ensures
            r == (self@ == other@),
    {
        crate::order::bytes_eq(&self.bytes, &other.bytes)
    }

    pub fn lt_ref(&self, other: &PatchRef) -> (r: bool)
        ensures
            r == crate::order::lex_lt(self@, other@),
    {
        crate::order::bytes_lt(&self.bytes, &other.bytes)
    }
}

/// The mathematical value of an operation.
#[verifier::ext_equal]
pub enum OperationView {
    AddEvent { start: u64, tags: Seq<Seq<char>> },
    SetEventStart { event_ref: Seq<u8>, start: u64 },
    AddTags { event_ref: Seq<u8>, tags: Seq<Seq<char>> },
}

/// One change to the event log.
#[derive(Debug)]
pub enum Operation {
    /// Creates a new event; the creating patch's reference names the event.
    AddEvent { start: u64, tags: Vec<String> },
    /// Moves the start of an existing event.
    SetEventStart { event_ref: PatchRef, start: u64 },
    /// Adds tags to an existing event.
    AddTags { event_ref: PatchRef, tags: Vec<String> },
}

impl View for Operation {
    type V = OperationView;

    open spec fn view(&self) -> OperationView {
        match self {
            Operation::AddEvent { start, tags } => OperationView::AddEvent {
                start: *start,
                tags: tags.deep_view(),
            },
            Operation::SetEventStart { event_ref, start } => OperationView::SetEventStart {
                event_ref: event_ref@,
                start: *start,
            },
            Operation::AddTags { event_ref, tags } => OperationView::AddTags {
                event_ref: event_ref@,
                tags: tags.deep_view(),
            },
        }
    }
}

impl Operation {
    /// References carried by an operation are digest-sized.
    pub open spec fn inv(&self) -> bool {
        match self {
            Operation::AddEvent { .. } => true,
            Operation::SetEventStart { event_ref, .. } => event_ref.inv(),
            Operation::AddTags { event_ref, .. } => event_ref.inv(),
        }
    }
}

/// The mathematical value of a patch.
#[verifier::ext_equal]
pub struct PatchView {
    pub patch_ref: Seq<u8>,
    pub device_id: Seq<char>,
    pub created_at: u64,
    pub operation: OperationView,
}

/// An immutable, content-addressed description of one change.
#[derive(Debug)]
pub struct Patch {
    pub patch_ref: PatchRef,
    pub device_id: String,
    pub created_at: u64,
    pub operation: Operation,
}

impl View for Patch {
    type V = PatchView;

    open spec fn view(&self) -> PatchView {
        PatchView {
            patch_ref: self.patch_ref@,
            device_id: self.device_id@,
            created_at: self.created_at,
            operation: self.operation@,
        }
    }
}

/// Structural bounds that every encodable operation value satisfies.
pub open spec fn op_bounds(op: OperationView) -> bool {
    match op {
        OperationView::AddEvent { tags, .. } => tags_bounds(tags),
        OperationView::SetEventStart { event_ref, .. } => event_ref.len() == 32,
        OperationView::AddTags { event_ref, tags } => event_ref.len() == 32 && tags_bounds(tags),
    }
}

pub open spec fn tags_bounds(tags: Seq<Seq<char>>) -> bool {
    &&& tags.len() <= usize::MAX
    &&& forall|i: int| 0 <= i < tags.len() ==> (#[trigger] encode_utf8(tags[i])).len()
        <= usize::MAX
}

/// A well-formed patch: its reference is the digest of its encoded body.
pub open spec fn patch_wf(p: PatchView) -> bool {
    &&& p.patch_ref.len() == 32
    &&& p.patch_ref == digest_of(enc_body(p))
    &&& encode_utf8(p.device_id).len() <= usize::MAX
    &&& op_bounds(p.operation)
}

// ---------------------------------------------------------------------------
// Canonical encoding
// ---------------------------------------------------------------------------
/// Encoded tag list: each tag in order, length-prefixed.
pub open spec fn enc_tags(tags: Seq<Seq<char>>) -> Seq<u8>
    decreases tags.len(),
{
    if tags.len() == 0 {
        Seq::empty()
    } else {
        enc_str(tags.first()) + enc_tags(tags.drop_first())
    }
}

pub open spec fn enc_op(op: OperationView) -> Seq<u8> {
    match op {
        OperationView::AddEvent { start, tags } => seq![1u8] + be_bytes(start) + be_bytes(
            tags.len() as u64,
        ) + enc_tags(tags),
        OperationView::SetEventStart { event_ref, start } => seq![2u8] + event_ref + be_bytes(
            start,
        ),
        OperationView::AddTags { event_ref, tags } => seq![3u8] + event_ref + be_bytes(
            tags.len() as u64,
        ) + enc_tags(tags),
    }
}

/// The hashed portion of a patch: everything but the reference itself.
pub open spec fn enc_body(p: PatchView) -> Seq<u8> {
    enc_str(p.device_id) + be_bytes(p.created_at) + enc_op(p.operation)
}

/// A whole stored patch: the reference, then the body it must hash to.
pub open spec fn enc_patch(p: PatchView) -> Seq<u8> {
    p.patch_ref + enc_body(p)
}

pub proof fn lemma_enc_tags_concat(a: Seq<Seq<char>>, b: Seq<Seq<char>>)
    ensures
        enc_tags(a + b) == enc_tags(a) + enc_tags(b),
    decreases a.len(),
{
    if a.len() == 0 {
        assert(a + b =~= b);
        assert(enc_tags(a) + enc_tags(b) =~= enc_tags(b));
    } else {
        assert((a + b).drop_first() =~= a.drop_first() + b);
        assert((a + b).first() == a.first());
        lemma_enc_tags_concat(a.drop_first(), b);
        assert(enc_str(a.first()) + (enc_tags(a.drop_first()) + enc_tags(b)) =~= (enc_str(a.first())
            + enc_tags(a.drop_first())) + enc_tags(b));
    }
}

fn push_tags(out: &mut Vec<u8>, tags: &Vec<String>)
    ensures
        final(out)@ == old(out)@ + be_bytes(tags@.len() as u64) + enc_tags(tags.deep_view()),
        tags_bounds(tags.deep_view()),
{
    let n = tags.len();
    push_be(out, n as u64);
    let mut i: usize = 0;
    while i < n
        invariant
            i <= n,
            n == tags@.len(),
            out@ == old(out)@ + be_bytes(n as u64) + enc_tags(tags.deep_view().take(i as int)),
            forall|j: int| 0 <= j < i ==> (#[trigger] encode_utf8(tags.deep_view()[j])).len()
                <= usize::MAX,
        decreases n - i,
    {
        push_str_enc(out, &tags[i]);
        proof {
            let dv = tags.deep_view();
            assert(dv.take(i as int + 1) =~= dv.take(i as int) + seq![dv[i as int]]);
            lemma_enc_tags_concat(dv.take(i as int), seq![dv[i as int]]);
            assert(seq![dv[i as int]].drop_first() =~= Seq::<Seq<char>>::empty());
            assert(enc_tags(Seq::<Seq<char>>::empty()) =~= Seq::<u8>::empty());
            assert(enc_tags(seq![dv[i as int]]) =~= enc_str(dv[i as int]));
            assert(dv[i as int] == tags@[i as int]@);
            assert(out@ =~= old(out)@ + be_bytes(n as u64) + enc_tags(dv.take(i as int + 1)));
        }
        i = i + 1;
    }
    proof {
        assert(tags.deep_view().take(n as int) =~= tags.deep_view());
    }
}

impl Operation {
    fn encode_into(&self, out: &mut Vec<u8>)
        requires
            self.inv(),
        ensures
            final(out)@ == old(out)@ + enc_op(self@),
            op_bounds(self@),
    {
        match self {
            Operation::AddEvent { start, tags } => {
                out.push(1u8);
                push_be(out, *start);
                push_tags(out, tags);
                proof {
                    assert(out@ =~= old(out)@ + enc_op(self@));
                }
            },
            Operation::SetEventStart { event_ref, start } => {
                let mut i: usize = 0;
                out.push(2u8);
                let rb = event_ref.as_bytes();
                while i < rb.len()
                    invariant
                        i <= rb@.len(),
                        rb@ == event_ref@,
                        out@ == old(out)@ + seq![2u8] + rb@.take(i as int),
                    decreases rb@.len() - i,
                {
                    out.push(rb[i]);
                    proof {
                        assert(rb@.take(i as int + 1) =~= rb@.take(i as int).push(rb@[i as int]));
                        assert(out@ =~= old(out)@ + seq![2u8] + rb@.take(i as int + 1));
                    }
                    i = i + 1;
                }
                push_be(out, *start);
                proof {
                    assert(rb@.take(rb@.len() as int) =~= rb@);
                    assert(out@ =~= old(out)@ + enc_op(self@));
                }
            },
            Operation::AddTags { event_ref, tags } => {
                let mut i: usize = 0;
                out.push(3u8);
                let rb = event_ref.as_bytes();
                while i < rb.len()
                    invariant
                        i <= rb@.len(),
                        rb@ == event_ref@,
                        out@ == old(out)@ + seq![3u8] + rb@.take(i as int),
                    decreases rb@.len() - i,
                {
                    out.push(rb[i]);
                    proof {
                        assert(rb@.take(i as int + 1) =~= rb@.take(i as int).push(rb@[i as int]));
                        assert(out@ =~= old(out)@ + seq![3u8] + rb@.take(i as int + 1));
                    }
                    i = i + 1;
                }
                push_tags(out, tags);
                proof {
                    assert(rb@.take(rb@.len() as int) =~= rb@);
                    assert(out@ =~= old(out)@ + enc_op(self@));
                }
            },
        }
    }
}

/// Encodes the hashed portion of a patch.
pub fn encode_body(device_id: &String, created_at: u64, operation: &Operation) -> (r: Vec<u8>)
    requires
        operation.inv(),
    ensures
        r@ == enc_str(device_id@) + be_bytes(created_at) + enc_op(operation@),
        encode_utf8(device_id@).len() <= usize::MAX,
        op_bounds(operation@),
{
    let mut out: Vec<u8> = Vec::new();
    push_str_enc(&mut out, device_id);
    push_be(&mut out, created_at);
    operation.encode_into(&mut out);
    proof {
        assert(out@ =~= enc_str(device_id@) + be_bytes(created_at) + enc_op(operation@));
    }
    out
}

impl Patch {
    /// Builds a patch, deriving its reference from the content.
    pub fn new(device_id: String, created_at: u64, operation: Operation) -> (r: Patch)
        requires
            operation.inv(),
        ensures
            patch_wf(r@),
            r@.device_id == device_id@,
            r@.created_at == created_at,
            r@.operation == operation@,
            r@.patch_ref == digest_of(
                enc_str(device_id@) + be_bytes(created_at) + enc_op(operation@),
            ),
    {
        let body = encode_body(&device_id, created_at, &operation);
        let digest = sha256(&body);
        let patch_ref = PatchRef { bytes: digest };
        Patch { patch_ref, device_id, created_at, operation }
    }

    /// Restores a patch from already-checked parts.
    pub(crate) fn from_parts(
        patch_ref: PatchRef,
        device_id: String,
        created_at: u64,
        operation: Operation,
    ) -> (r: Patch)
        requires
            patch_wf(
                PatchView {
                    patch_ref: patch_ref@,
                    device_id: device_id@,
                    created_at,
                    operation: operation@,
                },
            ),
        ensures
            patch_wf(r@),
            r@ == (PatchView {
                patch_ref: patch_ref@,
                device_id: device_id@,
                created_at,
                operation: operation@,
            }),
    {
        Patch { patch_ref, device_id, created_at, operation }
    }

    pub fn patch_ref(&self) -> (r: &PatchRef)
        ensures
            r@ == self@.patch_ref,
    {
        &self.patch_ref
    }

    pub fn device_id(&self) -> (r: &String)
        ensures
            r@ == self@.device_id,
    {
        &self.device_id
    }

    pub fn created_at(&self) -> (r: u64)
        ensures
            r == self@.created_at,
    {
        self.created_at
    }

    pub fn operation(&self) -> (r: &Operation)
        ensures
            r@ == self@.operation,
    {
        &self.operation
    }

    /// The full stored form: reference, then body.
    pub fn encode(&self) -> (r: Vec<u8>)
        requires
            patch_wf(self@),
        ensures
            r@ == enc_patch(self@),
    {
        let mut out = crate::order::copy_bytes(&self.patch_ref.bytes);
        push_str_enc(&mut out, &self.device_id);
        push_be(&mut out, self.created_at);
        self.operation.encode_into(&mut out);
        proof {
            assert(out@ =~= enc_patch(self@));
        }
        out
    }

    pub fn clone_patch(&self) -> (r: Patch)
        ensures
            r@ == self@,
    {
        Patch {
            patch_ref: self.patch_ref.clone_ref(),
            device_id: self.device_id.clone(),
            created_at: self.created_at,
            operation: match &self.operation {
                Operation::AddEvent { start, tags } => Operation::AddEvent {
                    start: *start,
                    tags: clone_tags(tags),
                },
                Operation::SetEventStart { event_ref, start } => Operation::SetEventStart {
                    event_ref: event_ref.clone_ref(),
                    start: *start,
                },
                Operation::AddTags { event_ref, tags } => Operation::AddTags {
                    event_ref: event_ref.clone_ref(),
                    tags: clone_tags(tags),
                },
            },
        }
    }
}

/// Copies a tag list.
pub fn clone_tags(tags: &Vec<String>) -> (r: Vec<String>)
    ensures
        r.deep_view() == tags.deep_view(),
        r@.len() == tags@.len(),
{
    let mut out: Vec<String> = Vec::new();
    let mut i: usize = 0;
    while i < tags.len()
        invariant
            i <= tags@.len(),
            out.deep_view() == tags.deep_view().take(i as int),
            out@.len() == i,
        decreases tags@.len() - i,
    {
        out.push(tags[i].clone());
        proof {
            assert(out.deep_view() =~= tags.deep_view().take(i as int + 1));
        }
        i = i + 1;
    }
    proof {
        assert(tags.deep_view().take(tags@.len() as int) =~= tags.deep_view());
    }
    out
}

// ---------------------------------------------------------------------------
// Parsing the canonical encoding back
// ---------------------------------------------------------------------------
/// Reading `n` tags in a row, in spec form.
pub open spec fn parse_tags(b: Seq<u8>, i: int, n: int) -> Option<(Seq<Seq<char>>, int)>
    decreases n,
{
    if n <= 0 {
        Some((Seq::empty(), i))
    } else {
        match crate::codec::parse_str(b, i) {
            None => None,
            Some((s, j)) => match parse_tags(b, j, n - 1) {
                None => None,
                Some((rest, k)) => Some((seq![s] + rest, k)),
            },
        }
    }
}

/// Reading one operation, in spec form.
pub open spec fn parse_op(b: Seq<u8>, i: int) -> Option<(OperationView, int)> {
    if i < 0 || i + 1 > b.len() {
        None
    } else if b[i] == 1u8 {
        match crate::codec::parse_be(b, i + 1) {
            None => None,
            Some((start, j)) => match crate::codec::parse_be(b, j) {
                None => None,
                Some((cnt, k)) => match parse_tags(b, k, cnt as int) {
                    None => None,
                    Some((tags, m)) => Some((OperationView::AddEvent { start, tags }, m)),
                },
            },
        }
    } else if b[i] == 2u8 {
        if i + 33 > b.len() {
            None
        } else {
            match crate::codec::parse_be(b, i + 33) {
                None => None,
                Some((start, j)) => Some(
                    (OperationView::SetEventStart { event_ref: b.subrange(i + 1, i + 33), start }, j),
                ),
            }
        }
    } else if b[i] == 3u8 {
        if i + 33 > b.len() {
            None
        } else {
            match crate::codec::parse_be(b, i + 33) {
                None => None,
                Some((cnt, k)) => match parse_tags(b, k, cnt as int) {
                    None => None,
                    Some((tags, m)) => Some(
                        (OperationView::AddTags { event_ref: b.subrange(i + 1, i + 33), tags }, m),
                    ),
                },
            }
        }
    } else {
        None
    }
}

/// Reading a whole stored patch, in spec form. The reference is taken from
/// the leading bytes; whether it matches the body's digest is a separate
/// check.
pub open spec fn parse_patch(b: Seq<u8>) -> Option<PatchView> {
    if b.len() < 32 {
        None
    } else {
        match crate::codec::parse_str(b, 32) {
            None => None,
            Some((device_id, j)) => match crate::codec::parse_be(b, j) {
                None => None,
                Some((created_at, k)) => match parse_op(b, k) {
                    None => None,
                    Some((operation, m)) => if m == b.len() {
                        Some(
                            PatchView {
                                patch_ref: b.subrange(0, 32),
                                device_id,
                                created_at,
                                operation,
                            },
                        )
                    } else {
                        None
                    },
                },
            },
        }
    }
}

/// A stored patch accepted only if its reference matches both the leading
/// bytes and the digest of the body.
pub open spec fn checked_patch(expected: Seq<u8>, bytes: Seq<u8>) -> Option<PatchView> {
    match parse_patch(bytes) {
        Some(p) => if p.patch_ref == expected && digest_of(enc_body(p)) == expected {
            Some(p)
        } else {
            None
        },
        None => None,
    }
}

pub proof fn lemma_parse_tags_sound(b: Seq<u8>, i: int, n: int)
    requires
        parse_tags(b, i, n) is Some,
        b.len() <= usize::MAX,
        0 <= i <= b.len(),
    ensures
        ({
            let (tags, j) = parse_tags(b, i, n)->Some_0;
            &&& i <= j <= b.len()
            &&& tags.len() == if n <= 0 { 0int } else { n }
            &&& 8 * tags.len() <= j - i
            &&& b.subrange(i, j) == enc_tags(tags)
            &&& tags_bounds(tags)
        }),
    decreases n,
{
    let (tags, j) = parse_tags(b, i, n)->Some_0;
    if n <= 0 {
        assert(b.subrange(i, j) =~= enc_tags(tags));
    } else {
        let (s, j1) = crate::codec::parse_str(b, i)->Some_0;
        crate::codec::lemma_parse_str_sound(b, i);
        lemma_parse_tags_sound(b, j1, n - 1);
        let (rest, _k) = parse_tags(b, j1, n - 1)->Some_0;
        assert(tags =~= seq![s] + rest);
        assert(tags.first() == s);
        assert(tags.drop_first() =~= rest);
        assert(b.subrange(i, j) =~= b.subrange(i, j1) + b.subrange(j1, j));
        assert(b.subrange(i, j) =~= enc_str(s) + enc_tags(rest));
        assert(enc_tags(tags) == enc_str(s) + enc_tags(rest));
        assert(encode_utf8(s).len() <= usize::MAX);
        assert(tags_bounds(tags)) by {
            assert(forall|x: int|
                0 <= x < tags.len() ==> #[trigger] tags[x] == if x == 0 {
                    s
                } else {
                    rest[x - 1]
                });
        }
    }
}

pub proof fn lemma_parse_tags_at(b: Seq<u8>, i: int, tags: Seq<Seq<char>>)
    requires
        0 <= i,
        tags_bounds(tags),
        i + enc_tags(tags).len() <= b.len(),
        b.subrange(i, i + enc_tags(tags).len()) == enc_tags(tags),
    ensures
        parse_tags(b, i, tags.len() as int) == Some((tags, i + enc_tags(tags).len())),
    decreases tags.len(),
{
    if tags.len() == 0 {
        assert(parse_tags(b, i, 0) == Some((Seq::<Seq<char>>::empty(), i)));
        assert(tags =~= Seq::<Seq<char>>::empty());
    } else {
        let s = tags.first();
        let rest = tags.drop_first();
        let l0 = enc_str(s).len() as int;
        let l = enc_tags(tags).len() as int;
        assert(enc_tags(tags) == enc_str(s) + enc_tags(rest));
        assert(b.subrange(i, i + l0) =~= b.subrange(i, i + l).subrange(0, l0));
        assert(b.subrange(i, i + l0) =~= enc_str(s));
        crate::codec::lemma_parse_str_at(b, i, s);
        assert(b.subrange(i + l0, i + l) =~= b.subrange(i, i + l).subrange(l0, l));
        assert(b.subrange(i + l0, i + l) =~= enc_tags(rest));
        assert(forall|x: int| 0 <= x < rest.len() ==> rest[x] == tags[x + 1]);
        assert(tags_bounds(rest));
        lemma_parse_tags_at(b, i + l0, rest);
        assert(parse_tags(b, i + l0, rest.len() as int) == Some((rest, i + l)));
        assert(tags =~= seq![s] + rest);
    }
}

pub proof fn lemma_parse_op_sound(b: Seq<u8>, i: int)
    requires
        parse_op(b, i) is Some,
        b.len() <= usize::MAX,
        0 <= i,
    ensures
        ({
            let (op, j) = parse_op(b, i)->Some_0;
            &&& i < j <= b.len()
            &&& b.subrange(i, j) == enc_op(op)
            &&& op_bounds(op)
        }),
{
    let (op, j) = parse_op(b, i)->Some_0;
    if b[i] == 1u8 {
        let (start, j1) = crate::codec::parse_be(b, i + 1)->Some_0;
        let (cnt, j2) = crate::codec::parse_be(b, j1)->Some_0;
        let (tags, _j3) = parse_tags(b, j2, cnt as int)->Some_0;
        lemma_parse_tags_sound(b, j2, cnt as int);
        crate::codec::lemma_be_bytes_of_be_value(b.subrange(i + 1, i + 9));
        crate::codec::lemma_be_bytes_of_be_value(b.subrange(j1, j1 + 8));
        assert(tags.len() as u64 == cnt);
        assert(b.subrange(i, j) =~= seq![b[i]] + b.subrange(i + 1, i + 9) + b.subrange(j1, j2)
            + b.subrange(j2, j));
        assert(b.subrange(i, j) =~= enc_op(op));
    } else if b[i] == 2u8 {
        let (start, j1) = crate::codec::parse_be(b, i + 33)->Some_0;
        crate::codec::lemma_be_bytes_of_be_value(b.subrange(i + 33, i + 41));
        assert(b.subrange(i, j) =~= seq![b[i]] + b.subrange(i + 1, i + 33) + b.subrange(
            i + 33,
            i + 41,
        ));
        assert(b.subrange(i, j) =~= enc_op(op));
    } else {
        let (cnt, j2) = crate::codec::parse_be(b, i + 33)->Some_0;
        let (tags, _j3) = parse_tags(b, j2, cnt as int)->Some_0;
        lemma_parse_tags_sound(b, j2, cnt as int);
        crate::codec::lemma_be_bytes_of_be_value(b.subrange(i + 33, i + 41));
        assert(tags.len() as u64 == cnt);
        assert(b.subrange(i, j) =~= seq![b[i]] + b.subrange(i + 1, i + 33) + b.subrange(
            i + 33,
            i + 41,
        ) + b.subrange(j2, j));
        assert(b.subrange(i, j) =~= enc_op(op));
    }
}

pub proof fn lemma_parse_op_at(b: Seq<u8>, i: int, op: OperationView)
    requires
        0 <= i,
        op_bounds(op),
        i + enc_op(op).len() <= b.len(),
        b.subrange(i, i + enc_op(op).len()) == enc_op(op),
    ensures
        parse_op(b, i) == Some((op, i + enc_op(op).len())),
{
    let l = enc_op(op).len() as int;
    let sub = b.subrange(i, i + l);
    assert(b[i] == sub[0]);
    match op {
        OperationView::AddEvent { start, tags } => {
            let tl = enc_tags(tags).len() as int;
            assert(b[i] == 1u8);
            assert(b.subrange(i + 1, i + 9) =~= sub.subrange(1, 9));
            assert(b.subrange(i + 1, i + 9) =~= be_bytes(start));
            crate::codec::lemma_be_value_of_be_bytes(start);
            assert(b.subrange(i + 9, i + 17) =~= sub.subrange(9, 17));
            assert(b.subrange(i + 9, i + 17) =~= be_bytes(tags.len() as u64));
            crate::codec::lemma_be_value_of_be_bytes(tags.len() as u64);
            assert(b.subrange(i + 17, i + 17 + tl) =~= sub.subrange(17, 17 + tl));
            assert(b.subrange(i + 17, i + 17 + tl) =~= enc_tags(tags));
            lemma_parse_tags_at(b, i + 17, tags);
            assert((tags.len() as u64) as int == tags.len() as int);
        },
        OperationView::SetEventStart { event_ref, start } => {
            assert(b[i] == 2u8);
            assert(b.subrange(i + 1, i + 33) =~= sub.subrange(1, 33));
            assert(b.subrange(i + 1, i + 33) =~= event_ref);
            assert(b.subrange(i + 33, i + 41) =~= sub.subrange(33, 41));
            assert(b.subrange(i + 33, i + 41) =~= be_bytes(start));
            crate::codec::lemma_be_value_of_be_bytes(start);
        },
        OperationView::AddTags { event_ref, tags } => {
            let tl = enc_tags(tags).len() as int;
            assert(b[i] == 3u8);
            assert(b.subrange(i + 1, i + 33) =~= sub.subrange(1, 33));
            assert(b.subrange(i + 1, i + 33) =~= event_ref);
            assert(b.subrange(i + 33, i + 41) =~= sub.subrange(33, 41));
            assert(b.subrange(i + 33, i + 41) =~= be_bytes(tags.len() as u64));
            crate::codec::lemma_be_value_of_be_bytes(tags.len() as u64);
            assert(b.subrange(i + 41, i + 41 + tl) =~= sub.subrange(41, 41 + tl));
            assert(b.subrange(i + 41, i + 41 + tl) =~= enc_tags(tags));
            lemma_parse_tags_at(b, i + 41, tags);
            assert((tags.len() as u64) as int == tags.len() as int);
        },
    }
}

/// Whatever parses as a patch is the canonical encoding of that patch.
pub proof fn lemma_parse_patch_sound(b: Seq<u8>)
    requires
        parse_patch(b) is Some,
        b.len() <= usize::MAX,
    ensures
        ({
            let p = parse_patch(b)->Some_0;
            &&& b == enc_patch(p)
            &&& b.subrange(32, b.len() as int) == enc_body(p)
            &&& p.patch_ref.len() == 32
            &&& encode_utf8(p.device_id).len() <= usize::MAX
            &&& op_bounds(p.operation)
        }),
{
    let p = parse_patch(b)->Some_0;
    let (device_id, j) = crate::codec::parse_str(b, 32)->Some_0;
    crate::codec::lemma_parse_str_sound(b, 32);
    let (created_at, k) = crate::codec::parse_be(b, j)->Some_0;
    crate::codec::lemma_be_bytes_of_be_value(b.subrange(j, j + 8));
    lemma_parse_op_sound(b, k);
    assert(b.subrange(32, b.len() as int) =~= b.subrange(32, j) + b.subrange(j, k) + b.subrange(
        k,
        b.len() as int,
    ));
    assert(b.subrange(32, b.len() as int) =~= enc_body(p));
    assert(b =~= b.subrange(0, 32) + b.subrange(32, b.len() as int));
    assert(b =~= enc_patch(p));
}

/// The canonical encoding of a well-formed patch parses back to it.
#[verifier::rlimit(50)]
pub proof fn lemma_parse_patch_of_enc(p: PatchView)
    requires
        p.patch_ref.len() == 32,
        encode_utf8(p.device_id).len() <= usize::MAX,
        op_bounds(p.operation),
    ensures
        parse_patch(enc_patch(p)) == Some(p),
{
    let b = enc_patch(p);
    let dl = enc_str(p.device_id).len() as int;
    let ol = enc_op(p.operation).len() as int;
    assert(b.len() == 32 + dl + 8 + ol);
    assert(b.subrange(0, 32) =~= p.patch_ref);
    assert(b.subrange(32, 32 + dl) =~= enc_str(p.device_id));
    crate::codec::lemma_parse_str_at(b, 32, p.device_id);
    assert(b.subrange(32 + dl, 40 + dl) =~= be_bytes(p.created_at));
    crate::codec::lemma_be_value_of_be_bytes(p.created_at);
    assert(b.subrange(40 + dl, 40 + dl + ol) =~= enc_op(p.operation));
    lemma_parse_op_at(b, 40 + dl, p.operation);
    assert(parse_patch(b) == Some(
        PatchView {
            patch_ref: b.subrange(0, 32),
            device_id: p.device_id,
            created_at: p.created_at,
            operation: p.operation,
        },
    ));
    assert(parse_patch(b)->Some_0 =~= p);
}

/// A well-formed patch survives the store round trip: encoding it and
/// checking the bytes against its own reference yields it back.
pub proof fn lemma_patch_round_trip(p: PatchView)
    requires
        patch_wf(p),
    ensures
        checked_patch(p.patch_ref, enc_patch(p)) == Some(p),
{
    lemma_parse_patch_of_enc(p);
}

/// Reads `n` tags in a row.
fn read_tags(b: &Vec<u8>, i: usize, n: u64) -> (r: Option<(Vec<String>, usize)>)
    ensures
        r matches Some(p) ==> parse_tags(b@, i as int, n as int) == Some(
            (p.0.deep_view(), p.1 as int),
        ),
        r is None <==> parse_tags(b@, i as int, n as int) is None,
{
    let mut acc: Vec<String> = Vec::new();
    let mut cur: usize = i;
    let mut rem: u64 = n;
    proof {
        assert(acc.deep_view() =~= Seq::<Seq<char>>::empty());
    }
    loop
        invariant
            parse_tags(b@, cur as int, rem as int) is None ==> parse_tags(
                b@,
                i as int,
                n as int,
            ) is None,
            forall|rest: Seq<Seq<char>>, k: int|
                parse_tags(b@, cur as int, rem as int) == Some((rest, k)) ==> parse_tags(
                    b@,
                    i as int,
                    n as int,
                ) == Some((acc.deep_view() + rest, k)),
        decreases rem,
    {
        if rem == 0 {
            proof {
                assert(parse_tags(b@, cur as int, 0) == Some(
                    (Seq::<Seq<char>>::empty(), cur as int),
                ));
                assert(parse_tags(b@, i as int, n as int) == Some(
                    (acc.deep_view() + Seq::<Seq<char>>::empty(), cur as int),
                ));
                assert(acc.deep_view() + Seq::<Seq<char>>::empty() =~= acc.deep_view());
            }
            return Some((acc, cur));
        }
        match read_str(b, cur) {
            None => {
                return None;
            },
            Some((s, j)) => {
                proof {
                    let sv = s@;
                    let av = acc.deep_view();
                    assert forall|rest: Seq<Seq<char>>, k: int|
                        parse_tags(b@, j as int, rem - 1) == Some((rest, k)) implies parse_tags(
                        b@,
                        i as int,
                        n as int,
                    ) == Some((av.push(sv) + rest, k)) by {
                        assert(parse_tags(b@, cur as int, rem as int) == Some((seq![sv] + rest, k)));
                        assert(av + (seq![sv] + rest) =~= av.push(sv) + rest);
                    }
                    assert(parse_tags(b@, j as int, rem - 1) is None ==> parse_tags(
                        b@,
                        cur as int,
                        rem as int,
                    ) is None);
                }
                let ghost oldacc = acc.deep_view();
                let ghost sv = s@;
                acc.push(s);
                proof {
                    assert(acc.deep_view() =~= oldacc.push(sv));
                }
                cur = j;
                rem = rem - 1;
            },
        }
    }
}

/// Reads one operation.
fn read_op(b: &Vec<u8>, i: usize) -> (r: Option<(Operation, usize)>)
    ensures
        r matches Some(p) ==> parse_op(b@, i as int) == Some((p.0@, p.1 as int)) && p.0.inv(),
        r is None <==> parse_op(b@, i as int) is None,
{
    if i >= b.len() {
        return None;
    }
    let t = b[i];
    if t == 1u8 {
        let (start, j) = match read_be(b, i + 1) {
            Some(p) => p,
            None => {
                return None;
            },
        };
        let (cnt, k) = match read_be(b, j) {
            Some(p) => p,
            None => {
                return None;
            },
        };
        match read_tags(b, k, cnt) {
            Some((tags, m)) => Some((Operation::AddEvent { start, tags }, m)),
            None => None,
        }
    } else if t == 2u8 {
        if b.len() - i < 33 {
            return None;
        }
        let refv = vstd::slice::slice_to_vec(
            vstd::slice::slice_subrange(b.as_slice(), i + 1, i + 33),
        );
        let (start, j) = match read_be(b, i + 33) {
            Some(p) => p,
            None => {
                return None;
            },
        };
        match PatchRef::from_bytes(refv) {
            Some(event_ref) => Some((Operation::SetEventStart { event_ref, start }, j)),
            None => None,
        }
    } else if t == 3u8 {
        if b.len() - i < 33 {
            return None;
        }
        let refv = vstd::slice::slice_to_vec(
            vstd::slice::slice_subrange(b.as_slice(), i + 1, i + 33),
        );
        let (cnt, k) = match read_be(b, i + 33) {
            Some(p) => p,
            None => {
                return None;
            },
        };
        match read_tags(b, k, cnt) {
            Some((tags, m)) => match PatchRef::from_bytes(refv) {
                Some(event_ref) => Some((Operation::AddTags { event_ref, tags }, m)),
                None => None,
            },
            None => None,
        }
    } else {
        None
    }
}

/// Decodes a stored patch and checks its integrity: the requested reference
/// must equal both the reference written in the leading bytes and the digest
/// of the body. Tampered bytes are rejected, never returned as a patch.
pub fn decode_patch_checked(expected: &PatchRef, bytes: &Vec<u8>) -> (r: Option<Patch>)
    ensures
        r matches Some(p) ==> checked_patch(expected@, bytes@) == Some(p@) && patch_wf(p@)
            && bytes@ == enc_patch(p@) && p@.patch_ref == expected@,
        r is None <==> checked_patch(expected@, bytes@) is None,
{
    if bytes.len() < 32 {
        return None;
    }
    let refv = vstd::slice::slice_to_vec(vstd::slice::slice_subrange(bytes.as_slice(), 0, 32));
    let (device_id, j) = match read_str(bytes, 32) {
        Some(p) => p,
        None => {
            return None;
        },
    };
    let (created_at, k) = match read_be(bytes, j) {
        Some(p) => p,
        None => {
            return None;
        },
    };
    let (operation, m) = match read_op(bytes, k) {
        Some(p) => p,
        None => {
            return None;
        },
    };
    if m != bytes.len() {
        return None;
    }
    proof {
        lemma_parse_patch_sound(bytes@);
    }
    if !crate::order::bytes_eq(&refv, expected.as_bytes()) {
        return None;
    }
    let body = vstd::slice::slice_to_vec(
        vstd::slice::slice_subrange(bytes.as_slice(), 32, bytes.len()),
    );
    let digest = sha256(&body);
    if !crate::order::bytes_eq(&digest, expected.as_bytes()) {
        return None;
    }
    match PatchRef::from_bytes(refv) {
        Some(patch_ref) => Some(Patch { patch_ref, device_id, created_at, operation }),
        None => None,
    }
}

} // verus!
