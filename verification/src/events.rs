//! Events and the registry of their subscriptions.
//!
//! The bus keeps, in the order of subscription, which callback listens to
//! which kind of event. Calling the callbacks is left to the caller, which
//! takes them from `listeners` for the kind of the event it emits.
use vstd::prelude::*;
use crate::types::{DocumentId, Position, Range, SubscriptionId};

verus! {

/// The kinds of events.
#[derive(Debug, Clone, Copy, PartialEq, Eq, Hash, Structural)]
pub enum EventKind {
    FileOpened,
    FileSaved,
    FileClosed,
    CursorMoved,
    TextChanged,
}

/// Something that happened to a document.
#[derive(Debug, Clone)]
pub enum Event {
    FileOpened { doc_id: DocumentId, path: Option<String> },
    FileSaved { doc_id: DocumentId, path: String },
    FileClosed { doc_id: DocumentId },
    CursorMoved { doc_id: DocumentId, position: Position },
    TextChanged { doc_id: DocumentId, range: Range, new_text: String },
}

/// An event with its strings taken as text.
pub enum EventView {
    FileOpened { doc_id: DocumentId, path: Option<Seq<char>> },
    FileSaved { doc_id: DocumentId, path: Seq<char> },
    FileClosed { doc_id: DocumentId },
    CursorMoved { doc_id: DocumentId, position: Position },
    TextChanged { doc_id: DocumentId, range: Range, new_text: Seq<char> },
}

impl View for Event {
    type V = EventView;

    open spec fn view(&self) -> EventView {
        match self {
            Event::FileOpened { doc_id, path } => EventView::FileOpened {
                doc_id: *doc_id,
                path: match path {
                    Some(p) => Some(p@),
                    None => None,
                },
            },
            Event::FileSaved { doc_id, path } => EventView::FileSaved { doc_id: *doc_id, path: path@ },
            Event::FileClosed { doc_id } => EventView::FileClosed { doc_id: *doc_id },
            Event::CursorMoved { doc_id, position } => EventView::CursorMoved {
                doc_id: *doc_id,
                position: *position,
            },
            Event::TextChanged { doc_id, range, new_text } => EventView::TextChanged {
                doc_id: *doc_id,
                range: *range,
                new_text: new_text@,
            },
        }
    }
}

/// The kind of an event.
pub open spec fn kind_of(e: EventView) -> EventKind {
    match e {
        EventView::FileOpened { .. } => EventKind::FileOpened,
        EventView::FileSaved { .. } => EventKind::FileSaved,
        EventView::FileClosed { .. } => EventKind::FileClosed,
        EventView::CursorMoved { .. } => EventKind::CursorMoved,
        EventView::TextChanged { .. } => EventKind::TextChanged,
    }
}

impl Event {
    pub fn kind(&self) -> (k: EventKind)
        ensures
            k == kind_of(self@),
    {
        match self {
            Event::FileOpened { .. } => EventKind::FileOpened,
            Event::FileSaved { .. } => EventKind::FileSaved,
            Event::FileClosed { .. } => EventKind::FileClosed,
            Event::CursorMoved { .. } => EventKind::CursorMoved,
            Event::TextChanged { .. } => EventKind::TextChanged,
        }
    }
}

/// One subscription: its id, the kind it listens to and its callback.
pub struct Subscription<C> {
    pub id: SubscriptionId,
    pub kind: EventKind,
    pub callback: C,
}

/// The subscriptions in the order they were made, and the next id to hand out.
pub struct EventBusState<C> {
    pub subscriptions: Seq<Subscription<C>>,
    pub next_id: u64,
}

/// Keeps the subscriptions of the kind `kind`.
pub open spec fn of_kind<C>(kind: EventKind) -> spec_fn(Subscription<C>) -> bool {
    |s: Subscription<C>| s.kind == kind
}

/// Keeps the subscriptions whose id is not `id`.
pub open spec fn not_id<C>(id: SubscriptionId) -> spec_fn(Subscription<C>) -> bool {
    |s: Subscription<C>| s.id != id
}

/// The subscriptions to `kind`, in the order they were made.
pub open spec fn listeners_of<C>(subs: Seq<Subscription<C>>, kind: EventKind) -> Seq<
    Subscription<C>,
> {
    subs.filter(of_kind::<C>(kind))
}

/// Ids grow with the order of subscription, start at 1 and stay below the
/// next id to hand out.
pub open spec fn bus_wf<C>(s: EventBusState<C>) -> bool {
    &&& s.next_id >= 1
    &&& forall|i: int, j: int|
        0 <= i < j < s.subscriptions.len() ==> (#[trigger] s.subscriptions[i]).id.0
            < (#[trigger] s.subscriptions[j]).id.0
    &&& forall|i: int|
        0 <= i < s.subscriptions.len() ==> 1 <= (#[trigger] s.subscriptions[i]).id.0 < s.next_id
}

/// The subscriptions to events, with their callbacks of type `C`.
pub struct EventBus<C> {
    subscriptions: Vec<Subscription<C>>,
    next_id: u64,
}

impl<C> View for EventBus<C> {
    type V = EventBusState<C>;

    closed spec fn view(&self) -> EventBusState<C> {
        EventBusState { subscriptions: self.subscriptions@, next_id: self.next_id }
    }
}

impl<C> EventBus<C> {
    pub open spec fn wf(&self) -> bool {
        bus_wf(self@)
    }

    /// The id the next subscription gets.
    pub fn next_id(&self) -> (n: u64)
        ensures
            n == self@.next_id,
    {
        self.next_id
    }

    /// A bus without subscriptions; the first id handed out is 1.
    pub fn new() -> (b: Self)
        ensures
            b.wf(),
            b@.subscriptions == Seq::<Subscription<C>>::empty(),
            b@.next_id == 1,
    {
        EventBus { subscriptions: Vec::new(), next_id: 1 }
    }

    /// Subscribes `callback` to the events of `kind`; the subscription gets
    /// the next id and comes after all earlier ones.
    pub fn subscribe(&mut self, kind: EventKind, callback: C) -> (id: SubscriptionId)
        requires
            old(self).wf(),
            old(self)@.next_id < u64::MAX,
        ensures
            final(self).wf(),
            id == SubscriptionId(old(self)@.next_id),
            final(self)@.next_id == old(self)@.next_id + 1,
            final(self)@.subscriptions == old(self)@.subscriptions.push(
                Subscription { id, kind, callback },
            ),
    {
        let id = SubscriptionId(self.next_id);
        self.next_id = self.next_id + 1;
        self.subscriptions.push(Subscription { id, kind, callback });
        id
    }

    /// Removes the subscription with id `id`, if there is one; the others
    /// keep their order.
    pub fn unsubscribe(&mut self, id: SubscriptionId)
        requires
            old(self).wf(),
        ensures
            final(self).wf(),
            final(self)@.next_id == old(self)@.next_id,
            final(self)@.subscriptions == old(self)@.subscriptions.filter(not_id::<C>(id)),
    {
        let ghost subs = self.subscriptions@;
        let n = self.subscriptions.len();
        let mut i: usize = 0;
        while i < n
            invariant
                n == subs.len(),
                subs == self.subscriptions@,
                subs == old(self)@.subscriptions,
                self.next_id == old(self)@.next_id,
                self.wf(),
                i <= n,
                forall|k: int| 0 <= k < i ==> (#[trigger] subs[k]).id != id,
            decreases n - i,
        {
            if self.subscriptions[i].id == id {
                proof {
                    assert forall|k: int| 0 <= k < n && k != i implies (#[trigger] subs[k]).id
                        != id by {
                        if k < i {
                        } else {
                            assert(subs[i as int].id.0 < subs[k].id.0);
                        }
                    }
                    lemma_filter_all_but_one(subs, not_id::<C>(id), i as int);
                }
                self.subscriptions.remove(i);
                proof {
                    let f = self@.subscriptions;
                    assert forall|a: int, b: int| 0 <= a < b < f.len() implies (
                    #[trigger] f[a]).id.0 < (#[trigger] f[b]).id.0 by {
                        let a2 = if a < i { a } else { a + 1 };
                        let b2 = if b < i { b } else { b + 1 };
                        assert(f[a] == subs[a2]);
                        assert(f[b] == subs[b2]);
                    }
                    assert forall|a: int| 0 <= a < f.len() implies 1 <= (#[trigger] f[a]).id.0
                        < self.next_id by {
                        let a2 = if a < i { a } else { a + 1 };
                        assert(f[a] == subs[a2]);
                    }
                }
                return;
            }
            i = i + 1;
        }
        proof {
            lemma_filter_all(subs, not_id::<C>(id));
        }
    }

    /// The callbacks subscribed to `kind`, in the order of subscription.
    pub fn listeners(&self, kind: EventKind) -> (r: Vec<&C>)
        ensures
            r@.len() == listeners_of(self@.subscriptions, kind).len(),
            forall|i: int|
                0 <= i < r@.len() ==> *(#[trigger] r@[i]) == listeners_of(
                    self@.subscriptions,
                    kind,
                )[i].callback,
    {
        let ghost subs = self.subscriptions@;
        let mut r: Vec<&C> = Vec::new();
        let n = self.subscriptions.len();
        let mut i: usize = 0;
        while i < n
            invariant
                n == subs.len(),
                subs == self.subscriptions@,
                i <= n,
                r@.len() == subs.take(i as int).filter(of_kind::<C>(kind)).len(),
                forall|k: int|
                    0 <= k < r@.len() ==> *(#[trigger] r@[k]) == subs.take(i as int).filter(
                        of_kind::<C>(kind),
                    )[k].callback,
            decreases n - i,
        {
            proof {
                assert(subs.take(i + 1) =~= subs.take(i as int).push(subs[i as int]));
                subs.take(i as int).lemma_filter_push(subs[i as int], of_kind::<C>(kind));
            }
            let s = &self.subscriptions[i];
            if s.kind == kind {
                r.push(&s.callback);
            }
            i = i + 1;
        }
        proof {
            assert(subs.take(n as int) =~= subs);
        }
        r
    }

    /// The ids of the subscriptions to `kind`, in the order of subscription.
    pub fn recipients(&self, kind: EventKind) -> (r: Vec<SubscriptionId>)
        ensures
            r@.len() == listeners_of(self@.subscriptions, kind).len(),
            forall|i: int|
                0 <= i < r@.len() ==> #[trigger] r@[i] == listeners_of(
                    self@.subscriptions,
                    kind,
                )[i].id,
    {
        let ghost subs = self.subscriptions@;
        let mut r: Vec<SubscriptionId> = Vec::new();
        let n = self.subscriptions.len();
        let mut i: usize = 0;
        while i < n
            invariant
                n == subs.len(),
                subs == self.subscriptions@,
                i <= n,
                r@.len() == subs.take(i as int).filter(of_kind::<C>(kind)).len(),
                forall|k: int|
                    0 <= k < r@.len() ==> #[trigger] r@[k] == subs.take(i as int).filter(
                        of_kind::<C>(kind),
                    )[k].id,
            decreases n - i,
        {
            proof {
                assert(subs.take(i + 1) =~= subs.take(i as int).push(subs[i as int]));
                subs.take(i as int).lemma_filter_push(subs[i as int], of_kind::<C>(kind));
            }
            let s = &self.subscriptions[i];
            if s.kind == kind {
                r.push(s.id);
            }
            i = i + 1;
        }
        proof {
            assert(subs.take(n as int) =~= subs);
        }
        r
    }

    /// How many subscriptions listen to `kind`.
    pub fn subscription_count(&self, kind: EventKind) -> (n: usize)
        ensures
            n == listeners_of(self@.subscriptions, kind).len(),
    {
        self.recipients(kind).len()
    }
}

impl<C> Default for EventBus<C> {
    fn default() -> (b: Self)
        ensures
            b.wf(),
            b@.subscriptions == Seq::<Subscription<C>>::empty(),
            b@.next_id == 1,
    {
        Self::new()
    }
}

/// Filtering with a predicate that every element meets changes nothing.
pub proof fn lemma_filter_all<A>(s: Seq<A>, p: spec_fn(A) -> bool)
    requires
        forall|k: int| 0 <= k < s.len() ==> p(#[trigger] s[k]),
    ensures
        s.filter(p) == s,
    decreases s.len(),
{
    reveal(Seq::filter);
    if s.len() > 0 {
        let t = s.drop_last();
        assert forall|k: int| 0 <= k < t.len() implies p(#[trigger] t[k]) by {
            assert(t[k] == s[k]);
        }
        lemma_filter_all(t, p);
        assert(p(s[s.len() - 1]));
        assert(t.push(s.last()) =~= s);
    }
}

/// Filtering with a predicate that every element but the one at `i` meets
/// removes that element.
pub proof fn lemma_filter_all_but_one<A>(s: Seq<A>, p: spec_fn(A) -> bool, i: int)
    requires
        0 <= i < s.len(),
        !p(s[i]),
        forall|k: int| 0 <= k < s.len() && k != i ==> p(#[trigger] s[k]),
    ensures
        s.filter(p) == s.remove(i),
    decreases s.len(),
{
    reveal(Seq::filter);
    let t = s.drop_last();
    if i == s.len() - 1 {
        assert forall|k: int| 0 <= k < t.len() implies p(#[trigger] t[k]) by {
            assert(t[k] == s[k]);
        }
        lemma_filter_all(t, p);
        assert(s.remove(i) =~= t);
    } else {
        assert forall|k: int| 0 <= k < t.len() && k != i implies p(#[trigger] t[k]) by {
            assert(t[k] == s[k]);
        }
        assert(t[i] == s[i]);
        lemma_filter_all_but_one(t, p, i);
        assert(p(s[s.len() - 1]));
        assert(t.remove(i).push(s.last()) =~= s.remove(i));
    }
}

/// Filtering keeps elements in their order: the elements of a filter are
/// elements of the original at increasing indices.
pub proof fn lemma_filter_order<A>(s: Seq<A>, p: spec_fn(A) -> bool, i: int, j: int)
    requires
        0 <= i <= j < s.filter(p).len(),
    ensures
        exists|a: int, b: int|
            0 <= a <= b < s.len() && (a == b <==> i == j) && s[a] == s.filter(p)[i] && s[b]
                == s.filter(p)[j],
    decreases s.len(),
{
    reveal(Seq::filter);
    let t = s.drop_last();
    let f = s.filter(p);
    let ft = t.filter(p);
    if p(s.last()) {
        assert(f == ft.push(s.last()));
        if j == f.len() - 1 {
            if i == j {
                assert(s[s.len() - 1] == f[i]);
            } else {
                lemma_filter_order(t, p, i, i);
                let (a, b) = choose|a: int, b: int|
                    0 <= a <= b < t.len() && (a == b <==> i == i) && t[a] == ft[i] && t[b]
                        == ft[i];
                assert(s[a] == f[i]);
                assert(s[s.len() - 1] == f[j]);
            }
        } else {
            lemma_filter_order(t, p, i, j);
            let (a, b) = choose|a: int, b: int|
                0 <= a <= b < t.len() && (a == b <==> i == j) && t[a] == ft[i] && t[b] == ft[j];
            assert(s[a] == f[i]);
            assert(s[b] == f[j]);
        }
    } else {
        assert(f == ft);
        lemma_filter_order(t, p, i, j);
        let (a, b) = choose|a: int, b: int|
            0 <= a <= b < t.len() && (a == b <==> i == j) && t[a] == ft[i] && t[b] == ft[j];
        assert(s[a] == f[i]);
        assert(s[b] == f[j]);
    }
}

/// The elements of a filter are elements of the original that meet the predicate.
pub proof fn lemma_filter_member<A>(s: Seq<A>, p: spec_fn(A) -> bool, i: int)
    requires
        0 <= i < s.filter(p).len(),
    ensures
        s.contains(s.filter(p)[i]),
        p(s.filter(p)[i]),
{
    lemma_filter_order(s, p, i, i);
    s.lemma_filter_pred(p, i);
}

/// Every callback handed out for a kind was subscribed to that kind.
pub proof fn law_listeners_have_kind<C>(subs: Seq<Subscription<C>>, kind: EventKind)
    ensures
        forall|i: int|
            0 <= i < listeners_of(subs, kind).len() ==> (#[trigger] listeners_of(subs, kind)[i]).kind
                == kind,
{
    assert forall|i: int| 0 <= i < listeners_of(subs, kind).len() implies (
    #[trigger] listeners_of(subs, kind)[i]).kind == kind by {
        subs.lemma_filter_pred(of_kind::<C>(kind), i);
    }
}

/// A new subscription is handed out after the earlier ones of its kind, and
/// changes nothing for the other kinds.
pub proof fn law_subscribe_appends<C>(subs: Seq<Subscription<C>>, s: Subscription<C>, kind: EventKind)
    ensures
        listeners_of(subs.push(s), kind) == if s.kind == kind {
            listeners_of(subs, kind).push(s)
        } else {
            listeners_of(subs, kind)
        },
{
    subs.lemma_filter_push(s, of_kind::<C>(kind));
}

/// After the subscription `id` is removed, no callback handed out belongs
/// to it, and every other subscription of the kind is still handed out.
pub proof fn law_unsubscribe_stops_callbacks<C>(
    subs: Seq<Subscription<C>>,
    id: SubscriptionId,
    kind: EventKind,
)
    ensures
        forall|i: int|
            0 <= i < listeners_of(subs.filter(not_id::<C>(id)), kind).len() ==> (
            #[trigger] listeners_of(subs.filter(not_id::<C>(id)), kind)[i]).id != id,
        forall|i: int|
            0 <= i < listeners_of(subs, kind).len() && (#[trigger] listeners_of(subs, kind)[i]).id
                != id ==> listeners_of(subs.filter(not_id::<C>(id)), kind).contains(
                listeners_of(subs, kind)[i],
            ),
{
    let kept = subs.filter(not_id::<C>(id));
    assert forall|i: int| 0 <= i < listeners_of(kept, kind).len() implies (
    #[trigger] listeners_of(kept, kind)[i]).id != id by {
        let x = listeners_of(kept, kind)[i];
        lemma_filter_member(kept, of_kind::<C>(kind), i);
        let b = choose|b: int| 0 <= b < kept.len() && kept[b] == x;
        subs.lemma_filter_pred(not_id::<C>(id), b);
    }
    assert forall|i: int|
        0 <= i < listeners_of(subs, kind).len() && (#[trigger] listeners_of(subs, kind)[i]).id
            != id implies listeners_of(kept, kind).contains(listeners_of(subs, kind)[i]) by {
        let x = listeners_of(subs, kind)[i];
        lemma_filter_member(subs, of_kind::<C>(kind), i);
        let a = choose|a: int| 0 <= a < subs.len() && subs[a] == x;
        subs.lemma_filter_contains(not_id::<C>(id), a);
        let b = choose|b: int| 0 <= b < kept.len() && kept[b] == x;
        kept.lemma_filter_contains(of_kind::<C>(kind), b);
    }
}

/// An event's kind is the kind named like its variant, so the subscribers of
/// a kind receive exactly the events of that variant.
pub proof fn law_event_kind_names_variant(e: EventView)
    ensures
        (kind_of(e) == EventKind::FileOpened) <==> (e is FileOpened),
        (kind_of(e) == EventKind::FileSaved) <==> (e is FileSaved),
        (kind_of(e) == EventKind::FileClosed) <==> (e is FileClosed),
        (kind_of(e) == EventKind::CursorMoved) <==> (e is CursorMoved),
        (kind_of(e) == EventKind::TextChanged) <==> (e is TextChanged),
{
}

} // verus!
