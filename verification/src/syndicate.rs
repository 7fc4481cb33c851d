//! A syndicate exchanges messages between publishers and subscribers on a
//! many to many basis. It shares one compacting log through a tokio `watch`
//! channel.
use vstd::prelude::*;

use crate::history::{
    lemma_newer_shape, law_no_loss_within_linear_min, merging_keeps_younger, replay,
};
use crate::log::{values_of, Indexed, Inner, LogView};
use crate::Compactable;
use std::marker::PhantomData;
use std::sync::Arc;
use tokio::sync::watch::{Receiver, Ref, Sender};
use tokio::sync::Mutex;
use vstd::std_specs::hash::obeys_key_model;

verus! {

#[verifier::external_type_specification]
#[verifier::external_body]
#[verifier::reject_recursive_types(T)]
pub struct ExWatchSender<T>(Sender<T>);

#[verifier::external_type_specification]
#[verifier::external_body]
#[verifier::reject_recursive_types(T)]
pub struct ExWatchReceiver<T>(Receiver<T>);

#[verifier::external_type_specification]
#[verifier::external_body]
#[verifier::reject_recursive_types(T)]
pub struct ExWatchRef<'a, T>(Ref<'a, T>);

#[verifier::external_type_specification]
#[verifier::external_body]
#[verifier::reject_recursive_types(T)]
pub struct ExTokioMutex<T: ?Sized>(Mutex<T>);

/// `tokio::sync::watch::Sender::new`: a channel holding `init`. What the
/// channel holds later depends on every task that shares it, so nothing is
/// stated of it.
#[verifier::external_body]
fn watch_new<T>(init: T) -> Sender<T> {
    Sender::new(init)
}

/// `tokio::sync::watch::Sender::clone`: another sender of the same channel.
/// A sender is a handle on the channel's shared state, and the clone holds
/// the same shared state, so the two are stated to be equal as values.
#[verifier::external_body]
fn watch_clone_sender<T>(sender: &Sender<T>) -> (clone: Sender<T>)
    ensures
        clone == *sender,
{
    sender.clone()
}

/// `tokio::sync::watch::Sender::subscribe`: a receiver of the same channel.
#[verifier::external_body]
fn watch_subscribe<T>(sender: &Sender<T>) -> Receiver<T> {
    sender.subscribe()
}

/// `tokio::sync::watch::Sender::borrow`: a read lock on the value the
/// channel holds now, which other tasks may have changed at any time before.
#[verifier::external_body]
fn watch_borrow<T>(sender: &Sender<T>) -> Ref<'_, T> {
    sender.borrow()
}

/// `tokio::sync::watch::Receiver::borrow_and_update`: a read lock on the
/// value the channel holds now, which is marked as seen by `receiver`.
#[verifier::external_body]
fn watch_borrow_and_update<T>(receiver: &mut Receiver<T>) -> Ref<'_, T> {
    receiver.borrow_and_update()
}

/// `Deref` of `tokio::sync::watch::Ref`: the value under the read lock.
#[verifier::external_body]
fn watch_ref_value<'b, 'a, T>(guard: &'b Ref<'a, T>) -> &'b T {
    &**guard
}

/// `tokio::sync::watch::Sender::send_modify`, with a closure that publishes
/// `value` on the log the channel holds (`Inner::publish`). Returns what
/// that call returned: whether publishers are advised to yield. Nothing is
/// stated of it, since the log it was computed on is whatever the tasks that
/// share the channel made of it.
#[verifier::external_body]
fn watch_send_publish<A: Compactable>(sender: &Sender<Inner<A>>, value: A) -> bool
    requires
        obeys_key_model::<A::Key>(),
{
    let mut heavy = false;
    sender.send_modify(|inner| heavy = inner.publish(value));
    heavy
}

/// `tokio::sync::Mutex::new`: an unlocked mutex holding `value`.
#[verifier::external_body]
fn mutex_new<T>(value: T) -> Mutex<T> {
    Mutex::new(value)
}

/// The offsets of a sequence of entries, in the same order.
pub open spec fn offsets_of<A>(entries: Seq<Indexed<A>>) -> Seq<nat> {
    entries.map_values(|e: Indexed<A>| e.offset as nat)
}

/// Whether `offset` and `values` are what `since(from)` returns on the
/// well-formed log `v`, the values being clones of the retained ones.
pub open spec fn read_since<A: Clone>(v: LogView<A>, from: nat, offset: nat, values: Seq<A>) -> bool {
    &&& v.wf()
    &&& offset == v.since(from).0
    &&& values.len() == v.since(from).1.len()
    &&& forall|i: int| 0 <= i < values.len() ==> cloned(#[trigger] v.since(from).1[i], values[i])
}

/// A `Syndicate` is a rusty interpretation of publish/subscribe using types
/// for topics.
///
/// An application defines a unified type for communication, typically an
/// `enum`; call this type `A`. A publisher of messages with type `B`
/// requires `B: Into<A>`; a subscriber to messages of type `B` requires
/// `A: TryInto<B>`.
///
/// Publishers are never blocked, although they are advised to yield to
/// exert light back-pressure. Subscribers never get lagging errors and can
/// join at any time and catch up to the current state.
///
/// The price of this is compaction: the last `linear_min` messages are
/// always retained, and any older message may be dropped if it has the same
/// compaction key as a younger message. The order of publication is
/// preserved in any case.
#[verifier::reject_recursive_types(A)]
pub struct Syndicate<A> {
    sender: Sender<Inner<A>>,
    /// The log the channel was created with.
    initial: Ghost<LogView<A>>,
}

impl<A> Clone for Syndicate<A> {
    fn clone(&self) -> (clone: Self)
        ensures
            clone.channel() == self.channel(),
            clone.initial_log() == self.initial_log(),
    {
        Syndicate { sender: watch_clone_sender(&self.sender), initial: self.initial }
    }
}

/// A handle to the syndicate that returns the published messages in order.
/// It carries an offset into the syndicate and caches the next values to be
/// pulled through it.
///
/// The subscription converts and filters the syndicate's messages from type
/// `A` to `B` through `TryInto`.
#[verifier::reject_recursive_types(A)]
#[verifier::reject_recursive_types(B)]
pub struct Subscription<A, B> {
    cursor: Cursor<A>,
    receiver: Receiver<Inner<A>>,
    marker: PhantomData<B>,
}

/// Where a subscription stands in the log: the greatest offset it has
/// caught up to, and the messages it has yet to deliver.
#[verifier::reject_recursive_types(A)]
pub struct Cursor<A> {
    offset: usize,
    /// messages not yet delivered, youngest first
    backlog: Vec<A>,
    /// the offsets of the messages not yet delivered
    offsets: Ghost<Seq<nat>>,
    /// the offset of the last message taken from the backlog, or the offset
    /// started from
    taken: Ghost<nat>,
}

/// A handle to the syndicate that returns the published messages in order,
/// and that can be cloned; a given message is delivered by at most one of
/// the clones.
#[verifier::reject_recursive_types(A)]
#[verifier::reject_recursive_types(B)]
pub struct SharedSubscription<A, B> {
    shared: Arc<Mutex<Subscription<A, B>>>,
}

/// A handle to the syndicate through which new messages can be published.
///
/// The publisher accepts messages of type `B` and converts them to syndicate
/// messages of type `A` through `Into`.
#[derive(Debug)]
#[verifier::reject_recursive_types(A)]
pub struct Publisher<A, B> {
    sender: Sender<Inner<A>>,
    marker: PhantomData<B>,
}

impl<A, B> Clone for Publisher<A, B> {
    fn clone(&self) -> (clone: Self)
        ensures
            clone.channel() == self.channel(),
    {
        Publisher { sender: watch_clone_sender(&self.sender), marker: PhantomData }
    }
}

impl<A> Syndicate<A> {
    /// The channel through which this syndicate shares its log.
    pub closed spec fn channel(&self) -> Sender<Inner<A>> {
        self.sender
    }

    /// The log the channel was created with. What the channel holds later
    /// is what the tasks that share it made of this log.
    pub closed spec fn initial_log(&self) -> LogView<A> {
        self.initial@
    }

    /// Create a new syndicate that retains the last `linear_min` messages and
    /// compacts all messages older than the last `linear_max` messages.
    /// Producers are advised to yield when there are `linear_hi` messages in
    /// the linear part.
    pub fn new(linear_min: usize, linear_hi: usize, linear_max: usize) -> (syndicate: Self)
        requires
            linear_min <= linear_max,
        ensures
            syndicate.initial_log() == LogView::<A>::initial(
                linear_min as nat,
                linear_hi as nat,
                linear_max as nat,
            ),
    {
        let log = Inner::new(linear_min, linear_hi, linear_max);
        let ghost initial = log@;
        let sender = watch_new(log);
        Syndicate { sender, initial: Ghost(initial) }
    }

    /// Create a new `Publisher`.
    pub fn publish<B>(&self) -> (publisher: Publisher<A, B>)
        ensures
            publisher.channel() == self.channel(),
    {
        Publisher { sender: watch_clone_sender(&self.sender), marker: PhantomData }
    }
}

impl<A: Clone> Syndicate<A> {
    /// Create a new `Subscription` for messages later than a given offset.
    ///
    /// If the offset is `0` all messages are subscribed. If an offset
    /// returned by `Syndicate::snapshot` is given, all messages following the
    /// last message in the snapshot are subscribed.
    ///
    /// Offset values increase monotonically but are not sequential.
    ///
    /// The log is read from the channel, which other tasks share and change
    /// at any time; so the contract states the result of `since` on some
    /// well-formed log, not on a particular one.
    pub fn subscribe_at<B>(&self, offset: usize) -> (subscription: Subscription<A, B>)
        ensures
            subscription.offset_seen() >= offset,
            subscription.backlog().len() <= subscription.offset_seen() - offset,
            exists|v: LogView<A>|
                #[trigger] read_since(
                    v,
                    offset as nat,
                    subscription.offset_seen(),
                    subscription.backlog(),
                ),
            subscription.in_order(),
            subscription.last_taken() == offset,
    {
        let mut receiver = watch_subscribe(&self.sender);
        let mut cursor = Cursor::new(offset);
        let ghost mut read: LogView<A>;
        {
            let guard = watch_borrow_and_update(&mut receiver);
            let inner = watch_ref_value(&guard);
            cursor.catch_up(inner);
            proof {
                read = inner@;
            }
        }
        assert(read_since(read, offset as nat, cursor.offset_seen(), cursor.backlog()));
        let subscription = Subscription { cursor, receiver, marker: PhantomData };
        assert(subscription.offset_seen() == cursor.offset_seen());
        assert(subscription.backlog() == cursor.backlog());
        assert(read_since(read, offset as nat, subscription.offset_seen(), subscription.backlog()));
        subscription
    }

    /// Create a new subscription to messages of type `B`. Messages are
    /// returned in order from the start of the syndicate onwards; messages
    /// removed by compaction are omitted.
    ///
    /// The log is read from the channel, which other tasks share and change
    /// at any time; so the contract states the result of `since` on some
    /// well-formed log, not on a particular one.
    pub fn subscribe<B>(&self) -> (subscription: Subscription<A, B>)
        ensures
            subscription.backlog().len() <= subscription.offset_seen(),
            exists|v: LogView<A>|
                #[trigger] read_since(v, 0, subscription.offset_seen(), subscription.backlog()),
            subscription.in_order(),
            subscription.last_taken() == 0,
    {
        self.subscribe_at(0)
    }

    /// The messages of the syndicate later than `offset` at this moment,
    /// oldest first, and the greatest offset therein (or `offset` itself
    /// when there is none).
    ///
    /// The log is read from the channel, which other tasks share and change
    /// at any time; so the contract states the result of `since` on some
    /// well-formed log, not on a particular one.
    pub fn snapshot(&self, offset: usize) -> (result: (usize, Vec<A>))
        ensures
            result.0 >= offset,
            result.1@.len() <= result.0 - offset,
            exists|v: LogView<A>|
                #[trigger] read_since(v, offset as nat, result.0 as nat, result.1@.reverse()),
    {
        let (seen, elements) = {
            let guard = watch_borrow(&self.sender);
            let inner = watch_ref_value(&guard);
            let read = inner.since(offset);
            proof {
                assert(read_since(inner@, offset as nat, read.0 as nat, read.1@));
            }
            read
        };
        let reversed = reverse(elements);
        proof {
            assert(reversed@.reverse() =~= elements@);
        }
        (seen, reversed)
    }
}

/// The elements of `v` in the opposite order.
fn reverse<T>(v: Vec<T>) -> (r: Vec<T>)
    ensures
        r@ == v@.reverse(),
{
    let ghost original = v@;
    let mut v = v;
    let mut r: Vec<T> = Vec::new();
    while v.len() > 0
        invariant
            v@.len() <= original.len(),
            v@ == original.take(v@.len() as int),
            r@ == original.skip(v@.len() as int).reverse(),
        decreases v@.len(),
    {
        let ghost before = v@.len() as int;
        let ghost prev = v@;
        match v.pop() {
            Some(x) => {
                proof {
                    assert(x == original[before - 1]);
                    assert(v@ =~= original.take(v@.len() as int));
                    assert(original.skip(before - 1) =~= seq![x] + original.skip(before));
                    assert(original.skip(before - 1).reverse() =~= original.skip(before).reverse().push(x));
                }
                r.push(x);
            },
            None => {},
        }
    }
    proof {
        assert(original.skip(0) =~= original);
    }
    r
}

impl<A> Cursor<A> {
    /// The greatest offset caught up to.
    pub closed spec fn offset_seen(&self) -> nat {
        self.offset as nat
    }

    /// The messages not yet delivered, youngest first.
    pub closed spec fn backlog(&self) -> Seq<A> {
        self.backlog@
    }

    /// The offsets of the messages not yet delivered, youngest first.
    pub closed spec fn backlog_offsets(&self) -> Seq<nat> {
        self.offsets@
    }

    /// The offset of the last message taken from the backlog, or the offset
    /// started from when none was taken.
    pub closed spec fn last_taken(&self) -> nat {
        self.taken@
    }

    /// Delivery follows publication order: the messages not yet delivered
    /// have descending offsets (youngest first), all greater than that of the
    /// last message taken and at most the offset caught up to.
    pub open spec fn in_order(&self) -> bool {
        &&& self.backlog_offsets().len() == self.backlog().len()
        &&& forall|i: int, j: int|
            0 <= i < j < self.backlog_offsets().len() ==> self.backlog_offsets()[i]
                > self.backlog_offsets()[j]
        &&& forall|i: int|
            0 <= i < self.backlog_offsets().len() ==> self.last_taken() < (
            #[trigger] self.backlog_offsets()[i]) <= self.offset_seen()
        &&& self.last_taken() <= self.offset_seen()
    }

    /// A cursor at `offset` with nothing to deliver.
    pub fn new(offset: usize) -> (cursor: Self)
        ensures
            cursor.offset_seen() == offset,
            cursor.backlog() == Seq::<A>::empty(),
            cursor.backlog_offsets() == Seq::<nat>::empty(),
            cursor.last_taken() == offset,
            cursor.in_order(),
    {
        Cursor { offset, backlog: Vec::new(), offsets: Ghost(Seq::empty()), taken: Ghost(offset as nat) }
    }
}

/// Whether `after` is `before` caught up on the log `v`: it stands at the
/// offset `since` returns from the offset `before` stood at, holds clones
/// of the retained messages newer than that offset, youngest first, with
/// their offsets, and has taken nothing more.
pub open spec fn caught_up<A: Clone>(before: Cursor<A>, v: LogView<A>, after: Cursor<A>) -> bool {
    &&& read_since(v, before.offset_seen(), after.offset_seen(), after.backlog())
    &&& after.backlog_offsets() == offsets_of(v.newer(before.offset_seen()))
    &&& after.last_taken() == before.last_taken()
}

/// Catching up from offset zero gives every message the log retains, in
/// the log's order (youngest first), and stands at the log's greatest
/// offset.
pub proof fn law_catch_up_from_start<A: Clone>(before: Cursor<A>, v: LogView<A>, after: Cursor<A>)
    requires
        before.offset_seen() == 0,
        caught_up(before, v, after),
    ensures
        after.offset_seen() == v.offset,
        after.backlog().len() == v.entries.len(),
        forall|i: int|
            0 <= i < v.entries.len() ==> cloned(v.entries[i].value, #[trigger] after.backlog()[i]),
        forall|i: int|
            0 <= i < v.entries.len() ==> #[trigger] after.backlog_offsets()[i]
                == v.entries[i].offset,
{
    assert(v.newer(0) =~= v.entries) by {
        assert forall|i: int| 0 <= i < v.entries.len() implies #[trigger] v.entries[i].offset > 0 by {}
        crate::log::lemma_filter_newer_is_prefix(v.entries, 0, v.entries.len() as int);
        assert(v.entries.take(v.entries.len() as int) =~= v.entries);
    }
    assert forall|i: int| 0 <= i < v.entries.len() implies cloned(
        v.entries[i].value,
        #[trigger] after.backlog()[i],
    ) by {
        assert(values_of(v.newer(0))[i] == v.entries[i].value);
    }
}

/// A subscriber at most `linear_min` messages behind misses nothing: where
/// merging retains the younger message, catching up on the log that the
/// messages `history` made gives a clone of every message pushed after its
/// offset, youngest first, and stands at the offset of the last one.
pub proof fn law_catch_up_misses_nothing<A: Compactable + Clone>(
    linear_min: nat,
    linear_hi: nat,
    linear_max: nat,
    history: Seq<A>,
    before: Cursor<A>,
    after: Cursor<A>,
)
    requires
        linear_min <= linear_max,
        history.len() <= usize::MAX,
        merging_keeps_younger::<A>(),
        before.offset_seen() <= history.len() <= before.offset_seen() + linear_min,
        caught_up(before, replay(LogView::initial(linear_min, linear_hi, linear_max), history), after),
    ensures
        after.offset_seen() == history.len(),
        after.backlog().len() == history.len() - before.offset_seen(),
        forall|i: int|
            0 <= i < after.backlog().len() ==> cloned(
                history[history.len() - 1 - i],
                #[trigger] after.backlog()[i],
            ),
{
    let o = before.offset_seen();
    let n = history.len();
    let v = replay(LogView::initial(linear_min, linear_hi, linear_max), history);
    law_no_loss_within_linear_min(linear_min, linear_hi, linear_max, history, o);
    let want = history.subrange(o as int, n as int).reverse();
    assert forall|i: int| 0 <= i < after.backlog().len() implies cloned(
        history[n - 1 - i],
        #[trigger] after.backlog()[i],
    ) by {
        assert(want[i] == history[n - 1 - i]);
        assert(v.since(o).1[i] == want[i]);
    }
}

impl<A: Clone> Cursor<A> {
    /// Replace the messages to deliver with every message of `log` later
    /// than the offset caught up to, and move to the greatest offset of
    /// `log` if it is later.
    pub fn catch_up(&mut self, log: &Inner<A>)
        ensures
            caught_up(*old(self), log@, *final(self)),
            final(self).offset_seen() >= old(self).offset_seen(),
            final(self).backlog().len() <= final(self).offset_seen() - old(self).offset_seen(),
            old(self).in_order() ==> final(self).in_order(),
    {
        let ghost mut offsets: Seq<nat> = Seq::empty();
        let read = log.since(self.offset);
        proof {
            assert(read_since(log@, self.offset as nat, read.0 as nat, read.1@));
            lemma_newer_shape(log@, self.offset as nat);
            offsets = offsets_of(log@.newer(self.offset as nat));
        }
        self.offset = read.0;
        self.backlog = read.1;
        self.offsets = Ghost(offsets);
    }
}

impl<A, B> Subscription<A, B> {
    /// Where this subscription stands in the log.
    pub closed spec fn cursor(&self) -> Cursor<A> {
        self.cursor
    }

    /// The greatest offset this subscription has caught up to.
    pub closed spec fn offset_seen(&self) -> nat {
        self.cursor.offset as nat
    }

    /// The messages not yet pulled, youngest first.
    pub closed spec fn backlog(&self) -> Seq<A> {
        self.cursor.backlog@
    }

    /// The offsets of the messages not yet pulled, youngest first.
    pub closed spec fn backlog_offsets(&self) -> Seq<nat> {
        self.cursor.offsets@
    }

    /// The offset of the last message taken from the backlog, or the offset
    /// subscribed from when none was taken.
    pub closed spec fn last_taken(&self) -> nat {
        self.cursor.taken@
    }

    /// Delivery follows publication order: the messages not yet pulled have
    /// descending offsets (youngest first), all greater than that of the
    /// last message taken and at most the offset caught up to.
    pub open spec fn in_order(&self) -> bool {
        &&& self.backlog_offsets().len() == self.backlog().len()
        &&& forall|i: int, j: int|
            0 <= i < j < self.backlog_offsets().len() ==> self.backlog_offsets()[i]
                > self.backlog_offsets()[j]
        &&& forall|i: int|
            0 <= i < self.backlog_offsets().len() ==> self.last_taken() < (
            #[trigger] self.backlog_offsets()[i]) <= self.offset_seen()
        &&& self.last_taken() <= self.offset_seen()
    }

    /// The receiver through which this subscription waits for changes.
    pub closed spec fn receiver_handle(&self) -> Receiver<Inner<A>> {
        self.receiver
    }

    /// The receiver through which this subscription waits for changes, to
    /// be used in place.
    pub fn receiver(&mut self) -> (receiver: &mut Receiver<Inner<A>>)
        ensures
            *receiver == old(self).receiver_handle(),
            final(self).receiver_handle() == *final(receiver),
            final(self).offset_seen() == old(self).offset_seen(),
            final(self).backlog() == old(self).backlog(),
            final(self).backlog_offsets() == old(self).backlog_offsets(),
            final(self).last_taken() == old(self).last_taken(),
    {
        &mut self.receiver
    }
}

impl<A: Clone, B> Subscription<A, B> {
    /// Replace the backlog with every message of the syndicate later than
    /// the offset this subscription has caught up to, and mark the current
    /// state of the syndicate as seen.
    ///
    /// The log is read from the channel, which other tasks share and change
    /// at any time; so the contract states the result of `since` on some
    /// well-formed log, not on a particular one.
    pub fn refresh(&mut self)
        ensures
            final(self).offset_seen() >= old(self).offset_seen(),
            final(self).backlog().len() <= final(self).offset_seen() - old(self).offset_seen(),
            exists|v: LogView<A>|
                #[trigger] read_since(
                    v,
                    old(self).offset_seen(),
                    final(self).offset_seen(),
                    final(self).backlog(),
                ),
            final(self).last_taken() == old(self).last_taken(),
            old(self).in_order() ==> final(self).in_order(),
            exists|v: LogView<A>| #[trigger] caught_up(old(self).cursor(), v, final(self).cursor()),
    {
        let ghost mut read: LogView<A>;
        {
            let guard = watch_borrow_and_update(&mut self.receiver);
            let inner = watch_ref_value(&guard);
            self.cursor.catch_up(inner);
            proof {
                read = inner@;
            }
        }
        assert(caught_up(old(self).cursor(), read, self.cursor()));
        assert(read_since(read, old(self).offset_seen(), self.offset_seen(), self.backlog()));
    }
}

/// Whether converting `a` into a `B` can fail.
pub open spec fn fails_to_convert<A: TryInto<B>, B>(a: A) -> bool {
    exists|e: <A as TryInto<B>>::Error|
        #[trigger] call_ensures(
            <A as TryInto<B>>::try_into,
            (a,),
            Err::<B, <A as TryInto<B>>::Error>(e),
        )
}

/// Whether converting `a` into a `B` can give `b`.
pub open spec fn converts_to<A: TryInto<B>, B>(a: A, b: B) -> bool {
    call_ensures(<A as TryInto<B>>::try_into, (a,), Ok::<B, <A as TryInto<B>>::Error>(b))
}

impl<A, B> Subscription<A, B> where A: TryInto<B> {
    /// Take buffered messages, oldest first, until one converts to `B`, and
    /// return its conversion; `None` when the backlog runs out first.
    /// Messages that do not convert are dropped.
    pub fn next_buffered(&mut self) -> (next: Option<B>)
        ensures
            final(self).offset_seen() == old(self).offset_seen(),
            final(self).backlog().len() <= old(self).backlog().len(),
            final(self).backlog() == old(self).backlog().take(final(self).backlog().len() as int),
            next is None ==> final(self).backlog().len() == 0,
            next is Some ==> final(self).backlog().len() < old(self).backlog().len(),
            forall|i: int|
                final(self).backlog().len() < i < old(self).backlog().len()
                    ==> fails_to_convert::<A, B>(#[trigger] old(self).backlog()[i]),
            final(self).last_taken() >= old(self).last_taken() || !old(self).in_order(),
            old(self).in_order() ==> final(self).in_order(),
            old(self).in_order() ==> final(self).backlog_offsets() == old(
                self,
            ).backlog_offsets().take(final(self).backlog().len() as int),
            old(self).in_order() && next is Some ==> final(self).last_taken() == old(
                self,
            ).backlog_offsets()[final(self).backlog().len() as int] && final(self).last_taken()
                > old(self).last_taken(),
            match next {
                Some(b) => converts_to(old(self).backlog()[final(self).backlog().len() as int], b),
                None => old(self).backlog().len() > 0 ==> fails_to_convert::<A, B>(
                    old(self).backlog()[0],
                ),
            },
    {
        let ghost old_backlog = self.cursor.backlog@;
        let ghost old_offsets = self.cursor.offsets@;
        let ghost ordered = old(self).in_order();
        proof {
            if ordered {
                assert(old_offsets.take(old_backlog.len() as int) =~= old_offsets);
            }
        }
        loop
            invariant
                self.cursor.offset == old(self).cursor.offset,
                old_backlog == old(self).cursor.backlog@,
                old_offsets == old(self).cursor.offsets@,
                ordered == old(self).in_order(),
                ordered ==> self.cursor.offsets@ == old_offsets.take(self.cursor.backlog@.len() as int),
                ordered && self.cursor.backlog@.len() == old_backlog.len() ==> self.cursor.taken@ == old(
                    self,
                ).cursor.taken@,
                ordered && self.cursor.backlog@.len() < old_backlog.len() ==> self.cursor.taken@
                    == old_offsets[self.cursor.backlog@.len() as int],
                self.cursor.taken@ >= old(self).cursor.taken@ || !ordered,
                self.cursor.backlog@.len() <= old_backlog.len(),
                self.cursor.backlog@ == old_backlog.take(self.cursor.backlog@.len() as int),
                forall|i: int|
                    self.cursor.backlog@.len() <= i < old_backlog.len() ==> fails_to_convert::<A, B>(
                        #[trigger] old_backlog[i],
                    ),
            decreases self.cursor.backlog@.len(),
        {
            let ghost prev = self.cursor.backlog@;
            match self.cursor.backlog.pop() {
                Some(value) => {
                    let ghost kept = self.cursor.backlog@.len() as int;
                    proof {
                        assert(kept == prev.len() - 1);
                        assert(self.cursor.backlog@ =~= old_backlog.take(kept));
                        assert(value == old_backlog[kept]);
                        if ordered {
                            assert(old_offsets.take(kept) =~= old_offsets.take(prev.len() as int).take(kept));
                            if prev.len() < old_backlog.len() {
                                assert(old_offsets[kept] > old_offsets[prev.len() as int]);
                            }
                        }
                    }
                    self.cursor.offsets = Ghost(self.cursor.offsets@.take(kept));
                    self.cursor.taken = Ghost(old_offsets[kept]);
                    let converted = value.try_into();
                    match converted {
                        Ok(b) => {
                            proof {
                                assert(converts_to(old_backlog[kept], b));
                            }
                            return Some(b);
                        },
                        Err(e) => {
                            proof {
                                assert(call_ensures(
                                    <A as TryInto<B>>::try_into,
                                    (old_backlog[kept],),
                                    Err::<B, <A as TryInto<B>>::Error>(e),
                                ));
                                assert(fails_to_convert::<A, B>(old_backlog[kept]));
                            }
                        },
                    }
                },
                None => {
                    proof {
                        if old_backlog.len() > 0 {
                            assert(fails_to_convert::<A, B>(old_backlog[0]));
                        }
                    }
                    return None;
                },
            }
        }
    }
}

impl<A, B> Subscription<A, B> {
    /// Convert to a `SharedSubscription`.
    pub fn share(self) -> SharedSubscription<A, B> {
        SharedSubscription { shared: Arc::new(mutex_new(self)) }
    }
}

impl<A, B> Clone for SharedSubscription<A, B> {
    fn clone(&self) -> (clone: Self)
        ensures
            clone.handle() == self.handle(),
    {
        SharedSubscription { shared: Arc::clone(&self.shared) }
    }
}

impl<A, B> SharedSubscription<A, B> {
    /// The handle on the subscription that the clones of this handle share.
    pub closed spec fn handle(&self) -> Arc<Mutex<Subscription<A, B>>> {
        self.shared
    }

    /// The subscription that the clones of this handle share.
    pub fn shared(&self) -> (shared: &Arc<Mutex<Subscription<A, B>>>)
        ensures
            *shared == self.handle(),
    {
        &self.shared
    }
}

impl<A, B> Publisher<A, B> {
    /// The channel on which this publisher puts its messages.
    pub closed spec fn channel(&self) -> Sender<Inner<A>> {
        self.sender
    }
}

impl<A: Compactable, B: Into<A>> Publisher<A, B> {
    /// Put a new message on the syndicate. Returns whether the publisher is
    /// advised to yield, because the recent part of the log is long.
    pub fn send(&self, value: B) -> bool
        requires
            obeys_key_model::<A::Key>(),
    {
        let message: A = value.into();
        watch_send_publish(&self.sender, message)
    }
}

} // verus!
