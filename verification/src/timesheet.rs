//! The derived view: events, conflicts, and the flatten algorithm.
use vstd::prelude::*;
use crate::order::lex_lt;
use crate::patch::Operation;
use crate::patch::Patch;
use crate::patch::PatchRef;
use crate::patch::PatchView;
use crate::patch::OperationView;
use crate::patch::patch_wf;

verus! {

/// The causal structure built from the full patch set, held in canonical
/// (reference) order so that every derived view is a pure function of the
/// patch set, not of arrival order.
pub struct EventGraph {
    pub patches: Vec<Patch>,
}

impl EventGraph {
    pub open spec fn inv(&self) -> bool {
        &&& forall|i: int, j: int|
            0 <= i < j < self.patches@.len() ==> lex_lt(
                self.patches@[i]@.patch_ref,
                self.patches@[j]@.patch_ref,
            )
        &&& forall|i: int| 0 <= i < self.patches@.len() ==> patch_wf(#[trigger] self.patches@[i]@)
    }

    /// An empty graph.
    pub fn new() -> (r: EventGraph)
        ensures
            r.inv(),
            r.patches@.len() == 0,
    {
        EventGraph { patches: Vec::new() }
    }

    /// Adds one patch to the in-memory graph. Order of addition does not
    /// matter: the graph keeps canonical order, and adding a patch that is
    /// already present changes nothing.
    pub fn add_patch(&mut self, patch: Patch)
        requires
            old(self).inv(),
            patch_wf(patch@),
            forall|i: int|
                0 <= i < old(self).patches@.len() ==> (#[trigger] old(
                    self,
                ).patches@[i])@.patch_ref == patch@.patch_ref ==> old(self).patches@[i]@ == patch@,
        ensures
            final(self).inv(),
            crate::repository::patch_views(final(self).patches@).to_set()
                == crate::repository::patch_views(old(self).patches@).to_set().insert(patch@),
    {
        crate::repository::insert_sorted(&mut self.patches, patch);
        proof {
            let pvs = crate::repository::patch_views(self.patches@);
            assert forall|i: int| 0 <= i < self.patches@.len() implies patch_wf(
                #[trigger] self.patches@[i]@,
            ) by {
                let p = self.patches@[i]@;
                assert(pvs[i] == p);
                assert(pvs.contains(p));
                if p != patch@ {
                    let oldpvs = crate::repository::patch_views(old(self).patches@);
                    assert(oldpvs.contains(p));
                    let j = choose|j: int| 0 <= j < oldpvs.len() && oldpvs[j] == p;
                    assert(old(self).patches@[j]@ == p);
                }
            }
        }
    }
}

/// The mathematical value of an event.
#[verifier::ext_equal]
pub struct EventView {
    pub event_ref: Seq<u8>,
    pub start: u64,
    pub end: Option<u64>,
    pub tags: Seq<Seq<char>>,
}

/// A derived event: constructed purely by folding the patch set.
#[derive(Debug)]
pub struct Event {
    pub event_ref: PatchRef,
    pub start: u64,
    pub end: Option<u64>,
    pub tags: Vec<String>,
}

impl View for Event {
    type V = EventView;

    open spec fn view(&self) -> EventView {
        EventView {
            event_ref: self.event_ref@,
            start: self.start,
            end: self.end,
            tags: self.tags.deep_view(),
        }
    }
}

/// The mathematical value of a conflict report.
#[verifier::ext_equal]
pub enum ConflictView {
    UnknownEvent { event_ref: Seq<u8>, patch: Seq<u8> },
    ConcurrentStarts { event_ref: Seq<u8>, patches: Seq<Seq<u8>> },
}

/// An irreconcilable group of patches, carrying the competing references so
/// a human can resolve it.
#[derive(Debug)]
pub enum Conflict {
    /// An edit names an event no patch created.
    UnknownEvent { event_ref: PatchRef, patch: PatchRef },
    /// Concurrent edits of an event's start with no causal order between
    /// them: no winner can be chosen automatically.
    ConcurrentStarts { event_ref: PatchRef, patches: Vec<PatchRef> },
}

impl View for Conflict {
    type V = ConflictView;

    open spec fn view(&self) -> ConflictView {
        match self {
            Conflict::UnknownEvent { event_ref, patch } => ConflictView::UnknownEvent {
                event_ref: event_ref@,
                patch: patch@,
            },
            Conflict::ConcurrentStarts { event_ref, patches } => ConflictView::ConcurrentStarts {
                event_ref: event_ref@,
                patches: Seq::new(patches@.len(), |i: int| patches@[i]@),
            },
        }
    }
}

/// The derived, immutable snapshot: events ordered by start, ties broken by
/// reference.
#[derive(Debug)]
pub struct Timesheet {
    pub events: Vec<Event>,
}

impl View for Timesheet {
    type V = Seq<EventView>;

    open spec fn view(&self) -> Seq<EventView> {
        Seq::new(self.events@.len(), |i: int| self.events@[i]@)
    }
}

// ---------------------------------------------------------------------------
// What the patch set means, in spec form
// ---------------------------------------------------------------------------
pub open spec fn is_add_event(p: PatchView) -> bool {
    p.operation is AddEvent
}

/// The event an edit is anchored to, if it is an edit.
pub open spec fn edit_target(p: PatchView) -> Option<Seq<u8>> {
    match p.operation {
        OperationView::AddEvent { .. } => None,
        OperationView::SetEventStart { event_ref, .. } => Some(event_ref),
        OperationView::AddTags { event_ref, .. } => Some(event_ref),
    }
}

/// Whether some patch in `s` creates the event `r`.
pub open spec fn has_event(s: Seq<PatchView>, r: Seq<u8>) -> bool {
    exists|i: int| 0 <= i < s.len() && is_add_event(#[trigger] s[i]) && s[i].patch_ref == r
}

/// The creation patches of `s`, in order.
pub open spec fn creations(s: Seq<PatchView>) -> Seq<PatchView>
    decreases s.len(),
{
    if s.len() == 0 {
        Seq::empty()
    } else if is_add_event(s.last()) {
        creations(s.drop_last()).push(s.last())
    } else {
        creations(s.drop_last())
    }
}

/// The start edits anchored to `r`, in order.
pub open spec fn start_edits(s: Seq<PatchView>, r: Seq<u8>) -> Seq<PatchView>
    decreases s.len(),
{
    if s.len() == 0 {
        Seq::empty()
    } else if s.last().operation matches OperationView::SetEventStart { event_ref, .. }
        && event_ref == r {
        start_edits(s.drop_last(), r).push(s.last())
    } else {
        start_edits(s.drop_last(), r)
    }
}

/// The tag edits anchored to `r`, in order.
pub open spec fn tag_edits(s: Seq<PatchView>, r: Seq<u8>) -> Seq<PatchView>
    decreases s.len(),
{
    if s.len() == 0 {
        Seq::empty()
    } else if s.last().operation matches OperationView::AddTags { event_ref, .. } && event_ref
        == r {
        tag_edits(s.drop_last(), r).push(s.last())
    } else {
        tag_edits(s.drop_last(), r)
    }
}

/// Edits from one device's sequential clock are totally ordered; anything
/// else is concurrent. A set of start edits can be applied automatically
/// exactly when they all come from one device at pairwise distinct times.
pub open spec fn edits_compatible(edits: Seq<PatchView>) -> bool {
    &&& forall|i: int| 0 <= i < edits.len() ==> (#[trigger] edits[i]).device_id
        == edits[0].device_id
    &&& forall|i: int, j: int|
        0 <= i < j < edits.len() ==> edits[i].created_at != edits[j].created_at
}

/// The causally last edit: the greatest creation time, later entries winning
/// ties (ties are conflicts anyway and never reach application).
pub open spec fn latest_edit(edits: Seq<PatchView>) -> PatchView
    recommends
        edits.len() >= 1,
    decreases edits.len(),
{
    if edits.len() <= 1 {
        edits[0]
    } else {
        let prev = latest_edit(edits.drop_last());
        if edits.last().created_at >= prev.created_at {
            edits.last()
        } else {
            prev
        }
    }
}

/// The start recorded in an operation.
pub open spec fn op_start(p: PatchView) -> u64 {
    match p.operation {
        OperationView::AddEvent { start, .. } => start,
        OperationView::SetEventStart { start, .. } => start,
        OperationView::AddTags { .. } => 0u64,
    }
}

/// The tags recorded in an operation.
pub open spec fn op_tags(p: PatchView) -> Seq<Seq<char>> {
    match p.operation {
        OperationView::AddEvent { tags, .. } => tags,
        OperationView::SetEventStart { .. } => Seq::empty(),
        OperationView::AddTags { tags, .. } => tags,
    }
}

/// All tags the edits contribute, in order.
pub open spec fn cat_tags(edits: Seq<PatchView>) -> Seq<Seq<char>>
    decreases edits.len(),
{
    if edits.len() == 0 {
        Seq::empty()
    } else {
        cat_tags(edits.drop_last()) + op_tags(edits.last())
    }
}

/// Keeps the first occurrence of each tag.
pub open spec fn dedup_into(acc: Seq<Seq<char>>, ts: Seq<Seq<char>>) -> Seq<Seq<char>>
    decreases ts.len(),
{
    if ts.len() == 0 {
        acc
    } else {
        dedup_into(
            if acc.contains(ts.first()) {
                acc
            } else {
                acc.push(ts.first())
            },
            ts.drop_first(),
        )
    }
}

pub proof fn lemma_dedup_into_snoc(acc: Seq<Seq<char>>, ts: Seq<Seq<char>>, t: Seq<char>)
    ensures
        dedup_into(acc, ts.push(t)) == if dedup_into(acc, ts).contains(t) {
            dedup_into(acc, ts)
        } else {
            dedup_into(acc, ts).push(t)
        },
    decreases ts.len(),
{
    if ts.len() == 0 {
        assert(ts.push(t).drop_first() =~= Seq::<Seq<char>>::empty());
        assert(ts.push(t).first() == t);
        let acc2 = if acc.contains(t) {
            acc
        } else {
            acc.push(t)
        };
        assert(dedup_into(acc, ts) == acc);
        assert(dedup_into(acc, ts.push(t)) == dedup_into(acc2, ts.push(t).drop_first()));
        assert(dedup_into(acc2, Seq::<Seq<char>>::empty()) == acc2);
    } else {
        assert(ts.push(t).first() == ts.first());
        assert(ts.push(t).drop_first() =~= ts.drop_first().push(t));
        let acc2 = if acc.contains(ts.first()) {
            acc
        } else {
            acc.push(ts.first())
        };
        lemma_dedup_into_snoc(acc2, ts.drop_first(), t);
        assert(dedup_into(acc, ts.push(t)) == dedup_into(acc2, ts.drop_first().push(t)));
        assert(dedup_into(acc, ts) == dedup_into(acc2, ts.drop_first()));
    }
}

/// The event an in-order creation patch folds to (without its end, which
/// depends on the neighbouring events).
pub open spec fn event_of(s: Seq<PatchView>, c: PatchView) -> EventView {
    let starts = start_edits(s, c.patch_ref);
    EventView {
        event_ref: c.patch_ref,
        start: if starts.len() == 0 {
            op_start(c)
        } else {
            op_start(latest_edit(starts))
        },
        end: None,
        tags: dedup_into(Seq::empty(), op_tags(c) + cat_tags(tag_edits(s, c.patch_ref))),
    }
}

/// Conflicts from edits that reference a never-created event, in order.
pub open spec fn unknown_conflicts(s: Seq<PatchView>, full: Seq<PatchView>) -> Seq<ConflictView>
    decreases s.len(),
{
    if s.len() == 0 {
        Seq::empty()
    } else if edit_target(s.last()) matches Some(r) && !has_event(full, r) {
        unknown_conflicts(s.drop_last(), full).push(
            ConflictView::UnknownEvent {
                event_ref: edit_target(s.last())->Some_0,
                patch: s.last().patch_ref,
            },
        )
    } else {
        unknown_conflicts(s.drop_last(), full)
    }
}

/// Conflicts from concurrent start edits, one per affected event, in order.
pub open spec fn start_conflicts(s: Seq<PatchView>, full: Seq<PatchView>) -> Seq<ConflictView>
    decreases s.len(),
{
    if s.len() == 0 {
        Seq::empty()
    } else if is_add_event(s.last()) && !edits_compatible(start_edits(full, s.last().patch_ref)) {
        start_conflicts(s.drop_last(), full).push(
            ConflictView::ConcurrentStarts {
                event_ref: s.last().patch_ref,
                patches: refs_of(start_edits(full, s.last().patch_ref)),
            },
        )
    } else {
        start_conflicts(s.drop_last(), full)
    }
}

/// The references of a sequence of patch views.
pub open spec fn refs_of(s: Seq<PatchView>) -> Seq<Seq<u8>> {
    Seq::new(s.len(), |i: int| s[i].patch_ref)
}

/// Everything that prevents a clean flatten.
pub open spec fn conflicts_of(s: Seq<PatchView>) -> Seq<ConflictView> {
    unknown_conflicts(s, s) + start_conflicts(s, s)
}

/// The events of the patch set, in creation (reference) order, ends unset.
pub open spec fn events_of(s: Seq<PatchView>, full: Seq<PatchView>) -> Seq<EventView>
    decreases s.len(),
{
    if s.len() == 0 {
        Seq::empty()
    } else if is_add_event(s.last()) {
        events_of(s.drop_last(), full).push(event_of(full, s.last()))
    } else {
        events_of(s.drop_last(), full)
    }
}

/// The timesheet order: by start, ties broken by reference.
pub open spec fn ev_lt(a: EventView, b: EventView) -> bool {
    a.start < b.start || (a.start == b.start && lex_lt(a.event_ref, b.event_ref))
}

/// Insertion into an ordered event list.
pub open spec fn insert_ev(sorted: Seq<EventView>, e: EventView) -> Seq<EventView>
    decreases sorted.len(),
{
    if sorted.len() == 0 {
        seq![e]
    } else if ev_lt(e, sorted.first()) {
        seq![e] + sorted
    } else {
        seq![sorted.first()] + insert_ev(sorted.drop_first(), e)
    }
}

/// Insertion sort of the event list.
pub open spec fn sort_evs(evs: Seq<EventView>) -> Seq<EventView>
    decreases evs.len(),
{
    if evs.len() == 0 {
        Seq::empty()
    } else {
        insert_ev(sort_evs(evs.drop_last()), evs.last())
    }
}

/// Each event lasts until the next one starts; the last is open.
pub open spec fn fill_ends(evs: Seq<EventView>) -> Seq<EventView> {
    Seq::new(
        evs.len(),
        |i: int|
            EventView {
                end: if i + 1 < evs.len() {
                    Some(evs[i + 1].start)
                } else {
                    None
                },
                ..evs[i]
            },
    )
}

/// The complete flatten of a canonical patch sequence, when it is free of
/// conflicts.
pub open spec fn flatten_events(s: Seq<PatchView>) -> Seq<EventView> {
    fill_ends(sort_evs(events_of(s, s)))
}

/// The views of a sequence of events.
pub open spec fn ev_views(s: Seq<Event>) -> Seq<EventView> {
    Seq::new(s.len(), |i: int| s[i]@)
}

/// The views of a sequence of conflicts.
pub open spec fn conflict_views(s: Seq<Conflict>) -> Seq<ConflictView> {
    Seq::new(s.len(), |i: int| s[i]@)
}

/// Whether any patch creates the event `r`.
fn find_creation(patches: &Vec<Patch>, r: &PatchRef) -> (found: bool)
    ensures
        found == has_event(crate::repository::patch_views(patches@), r@),
{
    let ghost full = crate::repository::patch_views(patches@);
    let mut i: usize = 0;
    while i < patches.len()
        invariant
            full == crate::repository::patch_views(patches@),
            i <= patches@.len(),
            forall|j: int| 0 <= j < i ==> !(is_add_event(#[trigger] full[j]) && full[j].patch_ref == r@),
        decreases patches@.len() - i,
    {
        let is_create = match patches[i].operation() {
            Operation::AddEvent { .. } => true,
            _ => false,
        };
        if is_create && patches[i].patch_ref().eq_ref(r) {
            proof {
                assert(is_add_event(full[i as int]) && full[i as int].patch_ref == r@);
            }
            return true;
        }
        i = i + 1;
    }
    false
}

/// Collects the start edits anchored to `r`, in order.
fn collect_start_edits(patches: &Vec<Patch>, r: &PatchRef) -> (out: Vec<Patch>)
    ensures
        crate::repository::patch_views(out@) == start_edits(
            crate::repository::patch_views(patches@),
            r@,
        ),
{
    let ghost full = crate::repository::patch_views(patches@);
    let mut out: Vec<Patch> = Vec::new();
    let mut i: usize = 0;
    proof {
        assert(full.take(0) =~= Seq::<PatchView>::empty());
        assert(crate::repository::patch_views(out@) =~= start_edits(full.take(0), r@));
    }
    while i < patches.len()
        invariant
            full == crate::repository::patch_views(patches@),
            i <= patches@.len(),
            crate::repository::patch_views(out@) == start_edits(full.take(i as int), r@),
        decreases patches@.len() - i,
    {
        proof {
            assert(full.take(i as int + 1).drop_last() =~= full.take(i as int));
            assert(full.take(i as int + 1).last() == full[i as int]);
        }
        let matches_r = match patches[i].operation() {
            Operation::SetEventStart { event_ref, .. } => event_ref.eq_ref(r),
            _ => false,
        };
        if matches_r {
            let ghost before = crate::repository::patch_views(out@);
            out.push(patches[i].clone_patch());
            proof {
                assert(crate::repository::patch_views(out@) =~= before.push(full[i as int]));
            }
        }
        i = i + 1;
    }
    proof {
        assert(full.take(patches@.len() as int) =~= full);
    }
    out
}

/// Collects the tag edits anchored to `r`, in order.
fn collect_tag_edits(patches: &Vec<Patch>, r: &PatchRef) -> (out: Vec<Patch>)
    ensures
        crate::repository::patch_views(out@) == tag_edits(
            crate::repository::patch_views(patches@),
            r@,
        ),
        forall|i: int|
            0 <= i < out@.len() ==> (#[trigger] out@[i])@.operation matches OperationView::AddTags { .. },
{
    let ghost full = crate::repository::patch_views(patches@);
    let mut out: Vec<Patch> = Vec::new();
    let mut i: usize = 0;
    proof {
        assert(full.take(0) =~= Seq::<PatchView>::empty());
        assert(crate::repository::patch_views(out@) =~= tag_edits(full.take(0), r@));
    }
    while i < patches.len()
        invariant
            full == crate::repository::patch_views(patches@),
            i <= patches@.len(),
            crate::repository::patch_views(out@) == tag_edits(full.take(i as int), r@),
            forall|j: int|
                0 <= j < out@.len() ==> (#[trigger] out@[j])@.operation matches OperationView::AddTags { .. },
        decreases patches@.len() - i,
    {
        proof {
            assert(full.take(i as int + 1).drop_last() =~= full.take(i as int));
            assert(full.take(i as int + 1).last() == full[i as int]);
        }
        let matches_r = match patches[i].operation() {
            Operation::AddTags { event_ref, .. } => event_ref.eq_ref(r),
            _ => false,
        };
        if matches_r {
            let ghost before = crate::repository::patch_views(out@);
            out.push(patches[i].clone_patch());
            proof {
                assert(crate::repository::patch_views(out@) =~= before.push(full[i as int]));
            }
        }
        i = i + 1;
    }
    proof {
        assert(full.take(patches@.len() as int) =~= full);
    }
    out
}

/// Decides whether start edits can be ordered causally.
fn edits_all_compatible(edits: &Vec<Patch>) -> (r: bool)
    ensures
        r == edits_compatible(crate::repository::patch_views(edits@)),
{
    let ghost evs = crate::repository::patch_views(edits@);
    let mut i: usize = 0;
    while i < edits.len()
        invariant
            evs == crate::repository::patch_views(edits@),
            i <= edits@.len(),
            forall|j: int| 0 <= j < i ==> (#[trigger] evs[j]).device_id == evs[0].device_id,
        decreases edits@.len() - i,
    {
        if !edits[i].device_id().eq(edits[0].device_id()) {
            proof {
                assert(evs[i as int].device_id != evs[0].device_id);
            }
            return false;
        }
        i = i + 1;
    }
    let mut a: usize = 0;
    while a < edits.len()
        invariant
            evs == crate::repository::patch_views(edits@),
            a <= edits@.len(),
            forall|x: int| 0 <= x < edits@.len() ==> (#[trigger] evs[x]).device_id == evs[0].device_id,
            forall|x: int, y: int|
                0 <= x < y < edits@.len() && x < a ==> (#[trigger] evs[x]).created_at != (
                #[trigger] evs[y]).created_at,
        decreases edits@.len() - a,
    {
        let mut b: usize = a + 1;
        while b < edits.len()
            invariant
                evs == crate::repository::patch_views(edits@),
                a < edits@.len(),
                a + 1 <= b <= edits@.len(),
                forall|y: int| a < y < b ==> evs[a as int].created_at != (#[trigger] evs[y]).created_at,
            decreases edits@.len() - b,
        {
            if edits[a].created_at() == edits[b].created_at() {
                proof {
                    assert(evs[a as int].created_at == evs[b as int].created_at);
                }
                return false;
            }
            b = b + 1;
        }
        a = a + 1;
    }
    true
}

/// The start carried by the causally last edit.
fn latest_start(edits: &Vec<Patch>) -> (r: u64)
    requires
        edits@.len() >= 1,
    ensures
        r == op_start(latest_edit(crate::repository::patch_views(edits@))),
{
    let ghost evs = crate::repository::patch_views(edits@);
    let mut cand: usize = 0;
    let mut i: usize = 1;
    proof {
        assert(evs.take(1).len() == 1);
        assert(evs.take(1)[0] == evs[0]);
        assert(latest_edit(evs.take(1)) == evs[0]);
    }
    while i < edits.len()
        invariant
            evs == crate::repository::patch_views(edits@),
            1 <= i <= edits@.len(),
            cand < i,
            evs[cand as int] == latest_edit(evs.take(i as int)),
        decreases edits@.len() - i,
    {
        proof {
            assert(evs.take(i as int + 1).drop_last() =~= evs.take(i as int));
            assert(evs.take(i as int + 1).last() == evs[i as int]);
            assert(evs.take(i as int + 1).len() > 1);
        }
        if edits[i].created_at() >= edits[cand].created_at() {
            cand = i;
        }
        i = i + 1;
    }
    proof {
        assert(evs.take(edits@.len() as int) =~= evs);
    }
    match edits[cand].operation() {
        Operation::AddEvent { start, .. } => *start,
        Operation::SetEventStart { start, .. } => *start,
        Operation::AddTags { .. } => 0u64,
    }
}

/// Appends a tag unless it is already present.
fn push_dedup(out: &mut Vec<String>, t: &String)
    ensures
        final(out).deep_view() == if old(out).deep_view().contains(t@) {
            old(out).deep_view()
        } else {
            old(out).deep_view().push(t@)
        },
{
    let mut i: usize = 0;
    while i < out.len()
        invariant
            out@ == old(out)@,
            i <= out@.len(),
            forall|j: int| 0 <= j < i ==> out.deep_view()[j] != t@,
        decreases out@.len() - i,
    {
        if out[i].eq(t) {
            proof {
                assert(out.deep_view()[i as int] == t@);
                assert(out.deep_view().contains(t@));
            }
            return ;
        }
        i = i + 1;
    }
    proof {
        assert forall|j: int|
            0 <= j < out.deep_view().len() implies out.deep_view()[j] != t@ by {}
        assert(!out.deep_view().contains(t@));
    }
    let ghost before = out.deep_view();
    out.push(t.clone());
    proof {
        assert(out.deep_view() =~= before.push(t@));
    }
}

/// Folds the creation's tags and every tag edit's tags, keeping first
/// occurrences.
fn fold_tags(creation: &Patch, edits: &Vec<Patch>) -> (out: Vec<String>)
    requires
        is_add_event(creation@),
        forall|i: int|
            0 <= i < edits@.len() ==> (#[trigger] edits@[i])@.operation matches OperationView::AddTags { .. },
    ensures
        out.deep_view() == dedup_into(
            Seq::empty(),
            op_tags(creation@) + cat_tags(crate::repository::patch_views(edits@)),
        ),
{
    let ghost evs = crate::repository::patch_views(edits@);
    let mut out: Vec<String> = Vec::new();
    let ghost mut done: Seq<Seq<char>> = Seq::empty();
    proof {
        assert(out.deep_view() =~= dedup_into(Seq::empty(), done));
    }
    let ctags: &Vec<String> = match creation.operation() {
        Operation::AddEvent { tags, .. } => tags,
        _ => {
            proof {
                assert(false);
            }
            return Vec::new();
        },
    };
    let mut j: usize = 0;
    while j < ctags.len()
        invariant
            ctags.deep_view() == op_tags(creation@),
            j <= ctags@.len(),
            done == ctags.deep_view().take(j as int),
            out.deep_view() == dedup_into(Seq::empty(), done),
        decreases ctags@.len() - j,
    {
        proof {
            lemma_dedup_into_snoc(Seq::empty(), done, ctags.deep_view()[j as int]);
            assert(ctags.deep_view().take(j as int + 1) =~= done.push(ctags.deep_view()[j as int]));
        }
        push_dedup(&mut out, &ctags[j]);
        proof {
            done = done.push(ctags.deep_view()[j as int]);
        }
        j = j + 1;
    }
    proof {
        assert(ctags.deep_view().take(ctags@.len() as int) =~= ctags.deep_view());
        assert(done == op_tags(creation@));
        assert(op_tags(creation@) + cat_tags(evs.take(0)) =~= done);
        assert(cat_tags(evs.take(0)) =~= Seq::<Seq<char>>::empty());
    }
    let mut k: usize = 0;
    while k < edits.len()
        invariant
            evs == crate::repository::patch_views(edits@),
            forall|x: int|
                0 <= x < edits@.len() ==> (#[trigger] edits@[x])@.operation matches OperationView::AddTags { .. },
            k <= edits@.len(),
            done == op_tags(creation@) + cat_tags(evs.take(k as int)),
            out.deep_view() == dedup_into(Seq::empty(), done),
        decreases edits@.len() - k,
    {
        let etags: &Vec<String> = match edits[k].operation() {
            Operation::AddTags { tags, .. } => tags,
            _ => {
                proof {
                    assert(false);
                }
                return Vec::new();
            },
        };
        proof {
            assert(etags.deep_view() == op_tags(evs[k as int]));
        }
        let mut j2: usize = 0;
        while j2 < etags.len()
            invariant
                etags.deep_view() == op_tags(evs[k as int]),
                k < edits@.len(),
                evs == crate::repository::patch_views(edits@),
                j2 <= etags@.len(),
                done == op_tags(creation@) + cat_tags(evs.take(k as int)) + etags.deep_view().take(
                    j2 as int,
                ),
                out.deep_view() == dedup_into(Seq::empty(), done),
            decreases etags@.len() - j2,
        {
            proof {
                lemma_dedup_into_snoc(Seq::empty(), done, etags.deep_view()[j2 as int]);
                assert(op_tags(creation@) + cat_tags(evs.take(k as int))
                    + etags.deep_view().take(j2 as int + 1) =~= done.push(
                    etags.deep_view()[j2 as int],
                ));
            }
            push_dedup(&mut out, &etags[j2]);
            proof {
                done = done.push(etags.deep_view()[j2 as int]);
            }
            j2 = j2 + 1;
        }
        proof {
            assert(etags.deep_view().take(etags@.len() as int) =~= etags.deep_view());
            assert(evs.take(k as int + 1).drop_last() =~= evs.take(k as int));
            assert(evs.take(k as int + 1).last() == evs[k as int]);
            assert(cat_tags(evs.take(k as int + 1)) =~= cat_tags(evs.take(k as int)) + op_tags(
                evs[k as int],
            ));
            assert(op_tags(creation@) + cat_tags(evs.take(k as int + 1)) =~= op_tags(creation@)
                + cat_tags(evs.take(k as int)) + etags.deep_view());
        }
        k = k + 1;
    }
    proof {
        assert(evs.take(edits@.len() as int) =~= evs);
    }
    out
}

/// Positions an event in an ordered list.
fn ev_lt_exec(a: &Event, b: &Event) -> (r: bool)
    ensures
        r == ev_lt(a@, b@),
{
    if a.start < b.start {
        true
    } else if a.start == b.start {
        crate::order::bytes_lt(a.event_ref.as_bytes(), b.event_ref.as_bytes())
    } else {
        false
    }
}

/// Splicing at the first position not below `e` is what `insert_ev` does.
proof fn lemma_insert_ev_at(sorted: Seq<EventView>, e: EventView, idx: int)
    requires
        0 <= idx <= sorted.len(),
        forall|x: int| 0 <= x < idx ==> !ev_lt(e, #[trigger] sorted[x]),
        idx < sorted.len() ==> ev_lt(e, sorted[idx]),
    ensures
        insert_ev(sorted, e) == sorted.take(idx) + seq![e] + sorted.skip(idx),
    decreases sorted.len(),
{
    if sorted.len() == 0 {
        assert(insert_ev(sorted, e) =~= sorted.take(0) + seq![e] + sorted.skip(0));
    } else if idx == 0 {
        assert(ev_lt(e, sorted.first()));
        assert(insert_ev(sorted, e) =~= sorted.take(0) + seq![e] + sorted.skip(0));
    } else {
        assert(!ev_lt(e, sorted[0]));
        let rest = sorted.drop_first();
        assert forall|x: int| 0 <= x < idx - 1 implies !ev_lt(e, #[trigger] rest[x]) by {
            assert(rest[x] == sorted[x + 1]);
        }
        if idx - 1 < rest.len() {
            assert(rest[idx - 1] == sorted[idx]);
        }
        lemma_insert_ev_at(rest, e, idx - 1);
        assert(insert_ev(sorted, e) =~= seq![sorted.first()] + (rest.take(idx - 1) + seq![e]
            + rest.skip(idx - 1)));
        assert(seq![sorted.first()] + rest.take(idx - 1) =~= sorted.take(idx));
        assert(rest.skip(idx - 1) =~= sorted.skip(idx));
        assert(seq![sorted.first()] + (rest.take(idx - 1) + seq![e] + rest.skip(idx - 1)) =~= (
        seq![sorted.first()] + rest.take(idx - 1)) + seq![e] + rest.skip(idx - 1));
        assert(insert_ev(sorted, e) =~= sorted.take(idx) + seq![e] + sorted.skip(idx));
    }
}

/// Inserts an event into an ordered list.
fn insert_event(out: &mut Vec<Event>, e: Event)
    ensures
        ev_views(final(out)@) == insert_ev(ev_views(old(out)@), e@),
{
    let n = out.len();
    let mut i: usize = 0;
    loop
        invariant
            out@ == old(out)@,
            n == out@.len(),
            i <= n,
            forall|x: int| 0 <= x < i ==> !ev_lt(e@, #[trigger] ev_views(out@)[x]),
        ensures
            out@ == old(out)@,
            i <= n,
            forall|x: int| 0 <= x < i ==> !ev_lt(e@, #[trigger] ev_views(out@)[x]),
            i < n ==> ev_lt(e@, ev_views(out@)[i as int]),
        decreases n - i,
    {
        if i >= n {
            break ;
        }
        if ev_lt_exec(&e, &out[i]) {
            proof {
                assert(ev_views(out@)[i as int] == out@[i as int]@);
            }
            break ;
        }
        proof {
            assert(ev_views(out@)[i as int] == out@[i as int]@);
        }
        i = i + 1;
    }
    proof {
        lemma_insert_ev_at(ev_views(out@), e@, i as int);
    }
    let ghost before = out@;
    let ghost ev = e@;
    out.insert(i, e);
    proof {
        assert(out@.len() == before.len() + 1);
        assert(forall|j: int| 0 <= j < i ==> out@[j] == before[j]);
        assert(out@[i as int]@ == ev);
        assert(forall|j: int| i < j < out@.len() ==> out@[j] == before[j - 1]);
        assert(ev_views(out@) =~= ev_views(before).take(i as int) + seq![ev] + ev_views(
            before,
        ).skip(i as int));
    }
}

impl EventGraph {
    /// The number of patches in the graph.
    pub fn len(&self) -> (r: usize)
        ensures
            r == self.patches@.len(),
    {
        self.patches.len()
    }

    /// Reduces the patch graph to a linear timesheet, or reports every
    /// conflict. The result is a pure function of the patch set: identical
    /// sets give identical output, whatever order the patches arrived in.
    /// Partial flattening is not offered: with any conflict present, no
    /// timesheet is produced.
    #[verifier::rlimit(75)]
    pub fn flatten(&self) -> (r: Result<Timesheet, Vec<Conflict>>)
        requires
            self.inv(),
        ensures
            r matches Ok(t) ==> conflicts_of(crate::repository::patch_views(self.patches@)).len()
                == 0 && t@ == flatten_events(crate::repository::patch_views(self.patches@)),
            r matches Err(cs) ==> conflict_views(cs@) == conflicts_of(
                crate::repository::patch_views(self.patches@),
            ) && cs@.len() > 0,
    {
        let ghost full = crate::repository::patch_views(self.patches@);
        let mut conflicts: Vec<Conflict> = Vec::new();
        // Edits that reference a never-created event.
        let mut i: usize = 0;
        proof {
            assert(full.take(0) =~= Seq::<PatchView>::empty());
            assert(conflict_views(conflicts@) =~= unknown_conflicts(full.take(0), full));
        }
        while i < self.patches.len()
            invariant
                self.inv(),
                full == crate::repository::patch_views(self.patches@),
                i <= self.patches@.len(),
                conflict_views(conflicts@) == unknown_conflicts(full.take(i as int), full),
            decreases self.patches@.len() - i,
        {
            proof {
                assert(full.take(i as int + 1).drop_last() =~= full.take(i as int));
                assert(full.take(i as int + 1).last() == full[i as int]);
            }
            let target: Option<&PatchRef> = match self.patches[i].operation() {
                Operation::AddEvent { .. } => None,
                Operation::SetEventStart { event_ref, .. } => Some(event_ref),
                Operation::AddTags { event_ref, .. } => Some(event_ref),
            };
            match target {
                Some(r) => {
                    if !find_creation(&self.patches, r) {
                        let ghost before = conflict_views(conflicts@);
                        conflicts.push(
                            Conflict::UnknownEvent {
                                event_ref: r.clone_ref(),
                                patch: self.patches[i].patch_ref().clone_ref(),
                            },
                        );
                        proof {
                            assert(conflict_views(conflicts@) =~= before.push(
                                ConflictView::UnknownEvent {
                                    event_ref: edit_target(full[i as int])->Some_0,
                                    patch: full[i as int].patch_ref,
                                },
                            ));
                        }
                    }
                },
                None => {},
            }
            i = i + 1;
        }
        proof {
            assert(full.take(self.patches@.len() as int) =~= full);
        }
        // Concurrent start edits.
        let ghost unknowns = conflict_views(conflicts@);
        let mut i2: usize = 0;
        proof {
            assert(full.take(0) =~= Seq::<PatchView>::empty());
            assert(conflict_views(conflicts@) =~= unknowns + start_conflicts(full.take(0), full));
        }
        while i2 < self.patches.len()
            invariant
                self.inv(),
                full == crate::repository::patch_views(self.patches@),
                i2 <= self.patches@.len(),
                unknowns == unknown_conflicts(full, full),
                conflict_views(conflicts@) == unknowns + start_conflicts(full.take(i2 as int), full),
            decreases self.patches@.len() - i2,
        {
            proof {
                assert(full.take(i2 as int + 1).drop_last() =~= full.take(i2 as int));
                assert(full.take(i2 as int + 1).last() == full[i2 as int]);
            }
            let is_create = match self.patches[i2].operation() {
                Operation::AddEvent { .. } => true,
                _ => false,
            };
            if is_create {
                let edits = collect_start_edits(&self.patches, self.patches[i2].patch_ref());
                if !edits_all_compatible(&edits) {
                    let mut refs: Vec<PatchRef> = Vec::new();
                    let mut x: usize = 0;
                    while x < edits.len()
                        invariant
                            x <= edits@.len(),
                            refs@.len() == x,
                            forall|y: int| 0 <= y < x ==> refs@[y]@ == edits@[y]@.patch_ref,
                        decreases edits@.len() - x,
                    {
                        refs.push(edits[x].patch_ref().clone_ref());
                        x = x + 1;
                    }
                    let ghost before = conflict_views(conflicts@);
                    conflicts.push(
                        Conflict::ConcurrentStarts {
                            event_ref: self.patches[i2].patch_ref().clone_ref(),
                            patches: refs,
                        },
                    );
                    proof {
                        assert(Seq::new(refs@.len(), |y: int| refs@[y]@) =~= refs_of(
                            start_edits(full, full[i2 as int].patch_ref),
                        ));
                        assert(conflict_views(conflicts@) =~= before.push(
                            ConflictView::ConcurrentStarts {
                                event_ref: full[i2 as int].patch_ref,
                                patches: refs_of(start_edits(full, full[i2 as int].patch_ref)),
                            },
                        ));
                        assert(conflict_views(conflicts@) =~= unknowns + start_conflicts(
                            full.take(i2 as int + 1),
                            full,
                        ));
                    }
                }
            }
            i2 = i2 + 1;
        }
        proof {
            assert(full.take(self.patches@.len() as int) =~= full);
            assert(conflict_views(conflicts@) =~= conflicts_of(full));
        }
        if conflicts.len() > 0 {
            return Err(conflicts);
        }
        // No conflicts: fold each event and order the result.
        let mut sorted: Vec<Event> = Vec::new();
        let mut k: usize = 0;
        proof {
            assert(full.take(0) =~= Seq::<PatchView>::empty());
            assert(ev_views(sorted@) =~= sort_evs(events_of(full.take(0), full)));
        }
        while k < self.patches.len()
            invariant
                self.inv(),
                full == crate::repository::patch_views(self.patches@),
                k <= self.patches@.len(),
                ev_views(sorted@) == sort_evs(events_of(full.take(k as int), full)),
            decreases self.patches@.len() - k,
        {
            proof {
                assert(full.take(k as int + 1).drop_last() =~= full.take(k as int));
                assert(full.take(k as int + 1).last() == full[k as int]);
            }
            let is_create = match self.patches[k].operation() {
                Operation::AddEvent { .. } => true,
                _ => false,
            };
            if is_create {
                let starts = collect_start_edits(&self.patches, self.patches[k].patch_ref());
                let start: u64 = if starts.len() == 0 {
                    proof {
                        assert(crate::repository::patch_views(starts@).len() == 0);
                    }
                    match self.patches[k].operation() {
                        Operation::AddEvent { start, .. } => *start,
                        _ => 0u64,
                    }
                } else {
                    latest_start(&starts)
                };
                let tagedits = collect_tag_edits(&self.patches, self.patches[k].patch_ref());
                let tags = fold_tags(&self.patches[k], &tagedits);
                let e = Event {
                    event_ref: self.patches[k].patch_ref().clone_ref(),
                    start,
                    end: None,
                    tags,
                };
                proof {
                    assert(e@ =~= event_of(full, full[k as int]));
                    assert(events_of(full.take(k as int + 1), full) =~= events_of(
                        full.take(k as int),
                        full,
                    ).push(event_of(full, full[k as int])));
                }
                insert_event(&mut sorted, e);
                proof {
                    let evs0 = events_of(full.take(k as int), full);
                    let ev = event_of(full, full[k as int]);
                    assert(evs0.push(ev).drop_last() =~= evs0);
                    assert(evs0.push(ev).last() == ev);
                    assert(sort_evs(evs0.push(ev)) == insert_ev(sort_evs(evs0), ev));
                }
            }
            k = k + 1;
        }
        proof {
            assert(full.take(self.patches@.len() as int) =~= full);
        }
        // Close each event at the start of the next.
        let mut events: Vec<Event> = Vec::new();
        let mut m: usize = 0;
        while m < sorted.len()
            invariant
                m <= sorted@.len(),
                events@.len() == m,
                forall|x: int|
                    0 <= x < m ==> #[trigger] events@[x]@ == fill_ends(ev_views(sorted@))[x],
            decreases sorted@.len() - m,
        {
            let end: Option<u64> = if m + 1 < sorted.len() {
                Some(sorted[m + 1].start)
            } else {
                None
            };
            let e = Event {
                event_ref: sorted[m].event_ref.clone_ref(),
                start: sorted[m].start,
                end,
                tags: crate::patch::clone_tags(&sorted[m].tags),
            };
            proof {
                assert(e@ =~= fill_ends(ev_views(sorted@))[m as int]);
            }
            events.push(e);
            m = m + 1;
        }
        let t = Timesheet { events };
        proof {
            assert(t@ =~= fill_ends(ev_views(sorted@)));
        }
        Ok(t)
    }
}

/// A canonically ordered patch sequence is determined by its set of patches:
/// two graphs holding the same patches in canonical order are equal.
pub proof fn lemma_canonical_unique(s1: Seq<PatchView>, s2: Seq<PatchView>)
    requires
        forall|i: int, j: int| 0 <= i < j < s1.len() ==> lex_lt(s1[i].patch_ref, s1[j].patch_ref),
        forall|i: int, j: int| 0 <= i < j < s2.len() ==> lex_lt(s2[i].patch_ref, s2[j].patch_ref),
        s1.to_set() == s2.to_set(),
    ensures
        s1 == s2,
    decreases s1.len(),
{
    if s1.len() == 0 {
        if s2.len() > 0 {
            assert(s2.to_set().contains(s2[0]));
            assert(s1.contains(s2[0]));
        }
        assert(s1 =~= s2);
    } else if s2.len() == 0 {
        assert(s1.to_set().contains(s1[0]));
        assert(s2.contains(s1[0]));
    } else {
        assert(s1.to_set().contains(s1[0]));
        assert(s2.contains(s1[0]));
        let j = choose|j: int| 0 <= j < s2.len() && s2[j] == s1[0];
        assert(s2.to_set().contains(s2[0]));
        assert(s1.contains(s2[0]));
        let i = choose|i: int| 0 <= i < s1.len() && s1[i] == s2[0];
        if j > 0 {
            assert(lex_lt(s2[0].patch_ref, s2[j].patch_ref));
            if i > 0 {
                assert(lex_lt(s1[0].patch_ref, s1[i].patch_ref));
                crate::order::lemma_lex_lt_transitive(
                    s1[0].patch_ref,
                    s1[i].patch_ref,
                    s2[j].patch_ref,
                );
                crate::order::lemma_lex_lt_irreflexive(s1[0].patch_ref);
            } else {
                crate::order::lemma_lex_lt_irreflexive(s2[0].patch_ref);
            }
        }
        assert(s1[0] == s2[0]);
        let t1 = s1.drop_first();
        let t2 = s2.drop_first();
        assert forall|x: PatchView| t1.to_set().contains(x) implies t2.to_set().contains(x) by {
            let a = choose|a: int| 0 <= a < t1.len() && t1[a] == x;
            assert(s1[a + 1] == x);
            assert(lex_lt(s1[0].patch_ref, s1[a + 1].patch_ref));
            crate::order::lemma_lex_lt_irreflexive(s1[0].patch_ref);
            assert(x != s1[0]);
            assert(s1.to_set().contains(x));
            assert(s2.contains(x));
            let b = choose|b: int| 0 <= b < s2.len() && s2[b] == x;
            assert(b != 0);
            assert(t2[b - 1] == x);
        }
        assert forall|x: PatchView| t2.to_set().contains(x) implies t1.to_set().contains(x) by {
            let a = choose|a: int| 0 <= a < t2.len() && t2[a] == x;
            assert(s2[a + 1] == x);
            assert(lex_lt(s2[0].patch_ref, s2[a + 1].patch_ref));
            crate::order::lemma_lex_lt_irreflexive(s2[0].patch_ref);
            assert(x != s2[0]);
            assert(s2.to_set().contains(x));
            assert(s1.contains(x));
            let b = choose|b: int| 0 <= b < s1.len() && s1[b] == x;
            assert(b != 0);
            assert(t1[b - 1] == x);
        }
        assert(t1.to_set() =~= t2.to_set());
        assert forall|i2: int, j2: int|
            0 <= i2 < j2 < t1.len() implies lex_lt(t1[i2].patch_ref, t1[j2].patch_ref) by {
            assert(t1[i2] == s1[i2 + 1]);
            assert(t1[j2] == s1[j2 + 1]);
        }
        assert forall|i2: int, j2: int|
            0 <= i2 < j2 < t2.len() implies lex_lt(t2[i2].patch_ref, t2[j2].patch_ref) by {
            assert(t2[i2] == s2[i2 + 1]);
            assert(t2[j2] == s2[j2 + 1]);
        }
        lemma_canonical_unique(t1, t2);
        assert(s1.len() == s2.len());
        assert forall|x: int| 0 <= x < s1.len() implies s1[x] == s2[x] by {
            if x > 0 {
                assert(s1[x] == t1[x - 1]);
                assert(s2[x] == t2[x - 1]);
            }
        }
        assert(s1 =~= s2);
    }
}

/// Flatten is deterministic: two graphs built from the same patch set, in
/// whatever order the patches were added, flatten to the same timesheet or
/// to the same conflict report.
pub proof fn lemma_flatten_deterministic(g1: EventGraph, g2: EventGraph)
    requires
        g1.inv(),
        g2.inv(),
        crate::repository::patch_views(g1.patches@).to_set() == crate::repository::patch_views(
            g2.patches@,
        ).to_set(),
    ensures
        crate::repository::patch_views(g1.patches@) == crate::repository::patch_views(g2.patches@),
        conflicts_of(crate::repository::patch_views(g1.patches@)) == conflicts_of(
            crate::repository::patch_views(g2.patches@),
        ),
        flatten_events(crate::repository::patch_views(g1.patches@)) == flatten_events(
            crate::repository::patch_views(g2.patches@),
        ),
{
    let v1 = crate::repository::patch_views(g1.patches@);
    let v2 = crate::repository::patch_views(g2.patches@);
    assert forall|i: int, j: int|
        0 <= i < j < v1.len() implies lex_lt(v1[i].patch_ref, v1[j].patch_ref) by {
        assert(v1[i] == g1.patches@[i]@);
        assert(v1[j] == g1.patches@[j]@);
    }
    assert forall|i: int, j: int|
        0 <= i < j < v2.len() implies lex_lt(v2[i].patch_ref, v2[j].patch_ref) by {
        assert(v2[i] == g2.patches@[i]@);
        assert(v2[j] == g2.patches@[j]@);
    }
    lemma_canonical_unique(v1, v2);
}

} // verus!
