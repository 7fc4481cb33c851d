//! A rusty interpretation of publish/subscribe using types for topics and
//! compaction to control backlog.
//!
//! A `Syndicate` exchanges messages between publishers and subscribers on a
//! many to many basis. It has no backlog limit, so publishers are never
//! blocked and subscribers never get lagging errors; compaction keeps its
//! space bounded: the last `linear_min` messages are always retained, and an
//! older message may be dropped only if a younger message has the same
//! compaction key. The order of publication is preserved in any case.
use vstd::prelude::*;

pub mod history;
pub mod log;
pub mod scope;
pub mod syndicate;

pub use log::{Indexed, Inner, LogView};
pub use scope::{join_step, joins_tasks, scope_result, task_outcome, JoinStep};
pub use syndicate::{Cursor, Publisher, SharedSubscription, Subscription, Syndicate};

verus! {

/// The message type of a syndicate provides a compaction key through this trait.
///
/// Of two retained messages with the same key, the older one may be dropped
/// by compaction once it has left the most recent part of the log; it is
/// then merged into the younger one (`compact`).
pub trait Compactable where Self: Sized {
    /// The type of the compaction key.
    type Key: Eq + std::hash::Hash;

    /// The compaction key of this message, as the contracts speak of it;
    /// `compaction_key` returns it, so a message always has the same key.
    spec fn key_of(&self) -> Self::Key;

    /// The compaction key for this message.
    /// In compaction, messages with the same key are merged.
    fn compaction_key(&self) -> (key: Self::Key)
        ensures
            key == self.key_of(),
    ;

    /// The message that merging the older message `older` into this one
    /// gives. Unless an implementation says otherwise, the younger message is
    /// retained unchanged.
    open spec fn merged(self, older: Self) -> Self {
        self
    }

    /// Merging keeps the key of the younger message.
    proof fn lemma_merged_keeps_key(younger: Self, older: Self)
        requires
            younger.key_of() == older.key_of(),
        ensures
            younger.merged(older).key_of() == younger.key_of(),
    ;

    /// Merge two messages which have the same key.
    /// In compaction, `self` is a younger message than the argument, and
    /// becomes `merged`; the key stays as it is. An implementation that
    /// retains the younger message unchanged has an empty body.
    fn compact(&mut self, other: Self)
        requires
            old(self).key_of() == other.key_of(),
        ensures
            *final(self) == old(self).merged(other),
            final(self).key_of() == old(self).key_of(),
    ;
}

} // verus!
