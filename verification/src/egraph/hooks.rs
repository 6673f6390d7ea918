//! Side-effect hooks for observing structural changes to the e-graph.
//!
//! A [`Hook`] lets outside code react to the two events that change the
//! structure of an e-graph, a new e-node and a merge of two e-classes. Typical
//! uses: keeping an operator index in sync, moving metadata keyed by id when a
//! class is absorbed, or gathering metrics.
//!
//! Hooks cannot alter the merge decision. The engine fires them for every
//! merge, the congruence merges inside `rebuild` among them, so that an outside
//! index never drifts out of sync: [`replay`] turns the events back into the
//! canonical ids.

use super::lang::{Id, Language};
use super::model::{coarsens, lemma_coarsens_trans, lemma_joined_coarsens};
use super::unionfind::{canonical_map, joined};
use vstd::prelude::*;

verus! {

/// A structural change of an e-graph.
pub enum HookEvent<L: Language> {
    /// A brand-new e-node was interned as class `id`.
    Added { id: Id, node: L },
    /// Class `absorbed` no longer exists; its nodes now live under `survivor`.
    Merged { survivor: Id, absorbed: Id },
}

/// Observer of the structural events of an e-graph.
pub trait Hook<L: Language> {
    /// The state of this hook fits having been told of exactly the events
    /// `log`.
    open spec fn heard(&self, log: Seq<HookEvent<L>>) -> bool {
        arbitrary()
    }

    /// Called after a brand-new e-node `node` is interned as class `id`.
    fn on_add(&mut self, id: Id, node: &L)
        ensures
            forall|log: Seq<HookEvent<L>>| #[trigger]
                old(self).heard(log) ==> final(self).heard(
                    log.push(HookEvent::Added { id, node: *node }),
                ),
    ;

    /// Called after two classes merge: `absorbed` no longer exists and all of
    /// its nodes and parents now live under `survivor`.
    fn on_merge(&mut self, survivor: Id, absorbed: Id)
        ensures
            forall|log: Seq<HookEvent<L>>| #[trigger]
                old(self).heard(log) ==> final(self).heard(
                    log.push(HookEvent::Merged { survivor, absorbed }),
                ),
    ;
}

/// How many of the events are new e-nodes.
pub open spec fn count_added<L: Language>(log: Seq<HookEvent<L>>) -> nat
    decreases log.len(),
{
    if log.len() == 0 {
        0
    } else {
        count_added(log.drop_last()) + if log.last() is Added {
            1nat
        } else {
            0
        }
    }
}

/// How many of the events are merges.
pub open spec fn count_merged<L: Language>(log: Seq<HookEvent<L>>) -> nat
    decreases log.len(),
{
    if log.len() == 0 {
        0
    } else {
        count_merged(log.drop_last()) + if log.last() is Merged {
            1nat
        } else {
            0
        }
    }
}

/// `count` as a counter of type `usize` shows it, which stops at its maximum.
pub open spec fn shown(count: nat) -> usize {
    if count < usize::MAX {
        count as usize
    } else {
        usize::MAX
    }
}

/// A hook that counts how many adds and merges have occurred.
#[derive(Default)]
pub struct CountingHook {
    pub adds: usize,
    pub merges: usize,
}

impl<L: Language> Hook<L> for CountingHook {
    open spec fn heard(&self, log: Seq<HookEvent<L>>) -> bool {
        self.adds == shown(count_added(log)) && self.merges == shown(count_merged(log))
    }

    fn on_add(&mut self, id: Id, node: &L) {
        if self.adds < usize::MAX {
            self.adds = self.adds + 1;
        }
        proof {
            assert forall|log: Seq<HookEvent<L>>| #[trigger]
                Hook::<L>::heard(old(self), log) implies Hook::<L>::heard(
                self,
                log.push(HookEvent::Added { id, node: *node }),
            ) by {
                assert(log.push(HookEvent::Added { id, node: *node }).drop_last() =~= log);
            }
        }
    }

    fn on_merge(&mut self, survivor: Id, absorbed: Id) {
        if self.merges < usize::MAX {
            self.merges = self.merges + 1;
        }
        proof {
            assert forall|log: Seq<HookEvent<L>>| #[trigger]
                Hook::<L>::heard(old(self), log) implies Hook::<L>::heard(
                self,
                log.push(HookEvent::Merged { survivor, absorbed }),
            ) by {
                assert(log.push(HookEvent::Merged { survivor, absorbed }).drop_last() =~= log);
            }
        }
    }
}

/// A counting hook that has heard nothing yet shows zero.
pub proof fn law_counting_starts_at_zero<L: Language>(hook: CountingHook)
    requires
        hook.adds == 0,
        hook.merges == 0,
    ensures
        Hook::<L>::heard(&hook, Seq::empty()),
{
}

/// Every hook was told of the events `events`, one after the other.
pub open spec fn notified<L: Language>(
    before: Seq<Box<dyn Hook<L>>>,
    after: Seq<Box<dyn Hook<L>>>,
    events: Seq<HookEvent<L>>,
) -> bool {
    &&& before.len() == after.len()
    &&& forall|i: int, log: Seq<HookEvent<L>>|
        #![trigger before[i].heard(log)]
        0 <= i < before.len() && before[i].heard(log) ==> after[i].heard(log + events)
}

/// The canonical ids after one event.
pub open spec fn replay_one<L: Language>(roots: Seq<Id>, event: HookEvent<L>) -> Seq<Id> {
    match event {
        HookEvent::Added { id, node } => roots.push(id),
        HookEvent::Merged { survivor, absorbed } => joined(roots, survivor, absorbed),
    }
}

/// The canonical ids after `events`.
pub open spec fn replay<L: Language>(roots: Seq<Id>, events: Seq<HookEvent<L>>) -> Seq<Id>
    decreases events.len(),
{
    if events.len() == 0 {
        roots
    } else {
        replay_one(replay(roots, events.drop_last()), events.last())
    }
}

/// The event can happen at the canonical ids `roots`: a new class gets the
/// next id, and only two different classes merge.
pub open spec fn event_fits<L: Language>(roots: Seq<Id>, event: HookEvent<L>) -> bool {
    match event {
        HookEvent::Added { id, node } => id.at() == roots.len(),
        HookEvent::Merged { survivor, absorbed } => {
            &&& survivor.at() < roots.len()
            &&& absorbed.at() < roots.len()
            &&& roots[survivor.at()] == survivor
            &&& roots[absorbed.at()] == absorbed
            &&& survivor != absorbed
        },
    }
}

/// Every event can happen where it happens.
pub open spec fn events_fit<L: Language>(roots: Seq<Id>, events: Seq<HookEvent<L>>) -> bool
    decreases events.len(),
{
    events.len() == 0 || (events_fit(roots, events.drop_last()) && event_fits(
        replay(roots, events.drop_last()),
        events.last(),
    ))
}

/// How many of the first `n` ids represent a class.
pub open spec fn class_count(roots: Seq<Id>, n: nat) -> nat
    decreases n,
{
    if n == 0 {
        0
    } else {
        class_count(roots, (n - 1) as nat) + if roots[n - 1].at() == n - 1 {
            1nat
        } else {
            0
        }
    }
}

/// How many classes there are.
pub open spec fn classes_of(roots: Seq<Id>) -> nat {
    class_count(roots, roots.len())
}

proof fn lemma_count_push(roots: Seq<Id>, id: Id, n: nat)
    requires
        n <= roots.len(),
    ensures
        class_count(roots.push(id), n) == class_count(roots, n),
    decreases n,
{
    if n > 0 {
        lemma_count_push(roots, id, (n - 1) as nat);
    }
}

proof fn lemma_count_joined(roots: Seq<Id>, a: Id, b: Id, n: nat)
    requires
        n <= roots.len(),
        a.at() < roots.len(),
        b.at() < roots.len(),
        roots[a.at()] == a,
        roots[b.at()] == b,
        a != b,
    ensures
        class_count(joined(roots, a, b), n) == class_count(roots, n) - if b.at() < n {
            1int
        } else {
            0
        },
    decreases n,
{
    if n > 0 {
        lemma_count_joined(roots, a, b, (n - 1) as nat);
    }
}

/// One event brings a new id, or leaves one class less.
pub proof fn lemma_event_progress<L: Language>(roots: Seq<Id>, event: HookEvent<L>)
    requires
        canonical_map(roots),
        event_fits(roots, event),
    ensures
        canonical_map(replay_one(roots, event)),
        coarsens(roots, replay_one(roots, event)),
        event is Added ==> replay_one(roots, event).len() == roots.len() + 1,
        event is Added ==> classes_of(replay_one(roots, event)) == classes_of(roots) + 1,
        event is Merged ==> replay_one(roots, event).len() == roots.len(),
        event is Merged ==> classes_of(replay_one(roots, event)) + 1 == classes_of(roots),
{
    let next = replay_one(roots, event);
    match event {
        HookEvent::Added { id, node } => {
            lemma_count_push(roots, id, roots.len());
        },
        HookEvent::Merged { survivor, absorbed } => {
            lemma_count_joined(roots, survivor, absorbed, roots.len());
            lemma_joined_coarsens(roots, survivor, absorbed);
        },
    }
    assert forall|i: int| #![trigger next[i]] 0 <= i < next.len() implies next[i].at() < next.len()
        && next[next[i].at()] == next[i] by {
        if i < roots.len() {
            assert(roots[roots[i].at()] == roots[i]);
        }
    }
}

/// Events bring new ids, or leave fewer classes.
pub proof fn lemma_events_progress<L: Language>(roots: Seq<Id>, events: Seq<HookEvent<L>>)
    requires
        canonical_map(roots),
        events_fit(roots, events),
    ensures
        canonical_map(replay(roots, events)),
        coarsens(roots, replay(roots, events)),
        replay(roots, events).len() == roots.len() + count_added(events),
        classes_of(replay(roots, events)) + count_merged(events) == classes_of(roots)
            + count_added(events),
        events.len() == count_added(events) + count_merged(events),
    decreases events.len(),
{
    if events.len() > 0 {
        let before = replay(roots, events.drop_last());
        lemma_events_progress(roots, events.drop_last());
        lemma_event_progress(before, events.last());
        lemma_coarsens_trans(roots, before, replay(roots, events));
    }
}

/// What represents no class never does again.
proof fn lemma_root_was_root<L: Language>(roots: Seq<Id>, events: Seq<HookEvent<L>>, id: Id)
    requires
        events_fit(roots, events),
        id.at() < roots.len(),
        id.at() < replay(roots, events).len(),
        replay(roots, events)[id.at()] == id,
    ensures
        roots[id.at()] == id,
    decreases events.len(),
{
    if events.len() > 0 {
        lemma_replay_len(roots, events.drop_last());
        lemma_root_was_root(roots, events.drop_last(), id);
    }
}

/// No id is lost.
proof fn lemma_replay_len<L: Language>(roots: Seq<Id>, events: Seq<HookEvent<L>>)
    ensures
        replay(roots, events).len() >= roots.len(),
    decreases events.len(),
{
    if events.len() > 0 {
        lemma_replay_len(roots, events.drop_last());
    }
}

/// What becomes of the two classes of a merge.
pub proof fn lemma_absorbed<L: Language>(roots: Seq<Id>, events: Seq<HookEvent<L>>, e: int)
    requires
        canonical_map(roots),
        events_fit(roots, events),
        0 <= e < events.len(),
        events[e] is Merged,
    ensures
        ({
            let (s, t) = (events[e]->survivor, events[e]->absorbed);
            let after = replay(roots, events);
            &&& s.at() < after.len() && t.at() < after.len()
            &&& after[t.at()] != t
            &&& after[s.at()] == after[t.at()]
            &&& t.at() < roots.len() ==> roots[t.at()] == t
        }),
    decreases events.len(),
{
    let (s, t) = (events[e]->survivor, events[e]->absorbed);
    let first = events.drop_last();
    let before = replay(roots, first);
    let after = replay(roots, events);
    lemma_events_progress(roots, first);
    lemma_event_progress(before, events.last());
    if e == events.len() - 1 {
        assert(before[t.at()] == t && before[s.at()] == s);
        if t.at() < roots.len() {
            lemma_root_was_root(roots, first, t);
        }
    } else {
        assert(first[e] == events[e]);
        lemma_absorbed(roots, first, e);
        assert(before[s.at()] == before[t.at()]);
        match events.last() {
            HookEvent::Added { id, node } => {
                assert(after[t.at()] == before[t.at()]);
            },
            HookEvent::Merged { survivor, absorbed } => {
                assert(before[survivor.at()] == survivor);
                assert(survivor != t);
            },
        }
    }
}

/// Replaying can be done in two parts.
pub proof fn lemma_replay_concat<L: Language>(
    roots: Seq<Id>,
    first: Seq<HookEvent<L>>,
    second: Seq<HookEvent<L>>,
)
    ensures
        replay(roots, first + second) == replay(replay(roots, first), second),
        events_fit(roots, first) && events_fit(replay(roots, first), second) ==> events_fit(
            roots,
            first + second,
        ),
    decreases second.len(),
{
    if second.len() == 0 {
        assert(first + second =~= first);
    } else {
        let all = first + second;
        assert(all.drop_last() =~= first + second.drop_last());
        assert(all.last() == second.last());
        lemma_replay_concat(roots, first, second.drop_last());
    }
}

/// Being told of two batches of events is being told of both.
pub proof fn lemma_notified_concat<L: Language>(
    a: Seq<Box<dyn Hook<L>>>,
    b: Seq<Box<dyn Hook<L>>>,
    c: Seq<Box<dyn Hook<L>>>,
    first: Seq<HookEvent<L>>,
    second: Seq<HookEvent<L>>,
)
    requires
        notified(a, b, first),
        notified(b, c, second),
    ensures
        notified(a, c, first + second),
{
    assert forall|i: int, log: Seq<HookEvent<L>>|
        #![trigger a[i].heard(log)]
        0 <= i < a.len() && a[i].heard(log) implies c[i].heard(log + (first + second)) by {
        assert(b[i].heard(log + first));
        assert(c[i].heard((log + first) + second));
        assert((log + first) + second =~= log + (first + second));
    }
}

/// A counting hook shows how many of the events that it was told of are new
/// e-nodes, and how many are merges, up to the largest `usize`.
pub proof fn law_counting_counts<L: Language>(hook: CountingHook, log: Seq<HookEvent<L>>)
    requires
        Hook::<L>::heard(&hook, log),
    ensures
        log.filter(|event: HookEvent<L>| event is Added).len() < usize::MAX ==> hook.adds
            == log.filter(|event: HookEvent<L>| event is Added).len(),
        log.filter(|event: HookEvent<L>| event is Merged).len() < usize::MAX ==> hook.merges
            == log.filter(|event: HookEvent<L>| event is Merged).len(),
        log.filter(|event: HookEvent<L>| event is Added).len() >= usize::MAX ==> hook.adds
            == usize::MAX,
        log.filter(|event: HookEvent<L>| event is Merged).len() >= usize::MAX ==> hook.merges
            == usize::MAX,
{
    lemma_counts(log);
}

proof fn lemma_counts<L: Language>(log: Seq<HookEvent<L>>)
    ensures
        count_added(log) == log.filter(|event: HookEvent<L>| event is Added).len(),
        count_merged(log) == log.filter(|event: HookEvent<L>| event is Merged).len(),
    decreases log.len(),
{
    reveal(Seq::filter);
    if log.len() > 0 {
        lemma_counts(log.drop_last());
    }
}

/// The classes that are counted are those ids that represent themselves.
pub proof fn law_classes_counted(roots: Seq<Id>)
    requires
        roots.len() <= u32::MAX + 1,
    ensures
        classes_of(roots) == Seq::new(roots.len(), |i: int| Id(i as u32)).filter(
            |id: Id| roots[id.at()] == id,
        ).len(),
{
    lemma_classes_counted(roots, roots.len());
}

proof fn lemma_classes_counted(roots: Seq<Id>, n: nat)
    requires
        n <= roots.len() <= u32::MAX + 1,
    ensures
        class_count(roots, n) == Seq::new(n, |i: int| Id(i as u32)).filter(
            |id: Id| roots[id.at()] == id,
        ).len(),
    decreases n,
{
    reveal(Seq::filter);
    if n > 0 {
        let less = (n - 1) as nat;
        lemma_classes_counted(roots, less);
        let all = Seq::new(n, |i: int| Id(i as u32));
        assert(all.drop_last() =~= Seq::new(less, |i: int| Id(i as u32)));
        assert(all.last() == Id((n - 1) as u32));
        assert(roots[n - 1].at() == n - 1 <==> roots[n - 1] == Id((n - 1) as u32));
    }
}

/// Every hook is told of every event, in their order: a hook that had heard some
/// events has heard these as well.
pub proof fn law_every_hook_is_told<L: Language>(
    before: Seq<Box<dyn Hook<L>>>,
    after: Seq<Box<dyn Hook<L>>>,
    events: Seq<HookEvent<L>>,
    i: int,
    log: Seq<HookEvent<L>>,
)
    requires
        notified(before, after, events),
        0 <= i < before.len(),
        before[i].heard(log),
    ensures
        after.len() == before.len(),
        after[i].heard(log + events),
{
}

/// The events are enough to keep the canonical ids: a new class is its own, and
/// after a merge exactly the ids of the class that went have that of the class
/// that stayed.
pub proof fn law_events_keep_ids<L: Language>(
    roots: Seq<Id>,
    events: Seq<HookEvent<L>>,
    id: Id,
    node: L,
    survivor: Id,
    absorbed: Id,
    i: int,
)
    requires
        0 <= i < replay(roots, events).len(),
    ensures
        replay(roots, Seq::<HookEvent<L>>::empty()) == roots,
        replay(roots, events.push(HookEvent::Added { id, node })) == replay(roots, events).push(id),
        replay(roots, events.push(HookEvent::Merged { survivor, absorbed })).len() == replay(
            roots,
            events,
        ).len(),
        replay(roots, events.push(HookEvent::Merged { survivor, absorbed }))[i] == if replay(
            roots,
            events,
        )[i] == absorbed {
            survivor
        } else {
            replay(roots, events)[i]
        },
{
    assert(events.push(HookEvent::Added { id, node }).drop_last() =~= events);
    assert(events.push(HookEvent::Merged { survivor, absorbed }).drop_last() =~= events);
}

} // verus!
