//! The compacting log that a syndicate shares between its publishers and
//! subscribers.
//!
//! A log holds the most recent messages in publication order (the linear
//! part) and, beside them, older messages that survived compaction (the
//! non-linear part). Every message carries an offset: the `n`-th message
//! ever pushed has offset `n`.
use vstd::prelude::*;
use vstd::std_specs::hash::obeys_key_model;

use crate::Compactable;
use std::collections::{HashMap, HashSet};

verus! {

broadcast use vstd::std_specs::hash::group_hash_axioms;

/// A retained message together with its offset.
#[derive(Debug)]
pub struct Indexed<A> {
    pub offset: usize,
    pub value: A,
}

/// The mathematical state of a log.
#[verifier::ext_equal]
pub struct LogView<A> {
    /// The retained messages, youngest first.
    pub entries: Seq<Indexed<A>>,
    /// The greatest offset pushed so far, or zero.
    pub offset: nat,
    /// How many of the youngest entries form the linear part.
    pub linear_len: nat,
    /// Compaction target length of the linear part.
    pub linear_min: nat,
    /// Length of the linear part at which publishers are advised to yield.
    pub linear_hi: nat,
    /// Length of the linear part at which compaction starts.
    pub linear_max: nat,
}

/// The values of a sequence of entries, in the same order.
pub open spec fn values_of<A>(entries: Seq<Indexed<A>>) -> Seq<A> {
    entries.map_values(|e: Indexed<A>| e.value)
}

/// Whether the entry at position `i` is the youngest entry of `entries`
/// with its compaction key.
pub open spec fn is_latest_of_key<A: Compactable>(entries: Seq<Indexed<A>>, i: int) -> bool {
    forall|j: int| 0 <= j < i ==> entries[j].value.key_of() != entries[i].value.key_of()
}

/// The entries from position `i` on that are the youngest of `entries` with
/// their compaction key, in their order.
pub open spec fn latest_from<A: Compactable>(entries: Seq<Indexed<A>>, i: nat) -> Seq<Indexed<A>>
    decreases entries.len() - i,
{
    if i >= entries.len() {
        Seq::empty()
    } else if is_latest_of_key(entries, i as int) {
        seq![entries[i as int]] + latest_from(entries, i + 1)
    } else {
        latest_from(entries, i + 1)
    }
}

/// The compaction keys of the entries before position `i`.
pub open spec fn keys_before<A: Compactable>(entries: Seq<Indexed<A>>, i: int) -> Set<A::Key> {
    Set::new(|k: A::Key| exists|j: int| 0 <= j < i && entries[j].value.key_of() == k)
}

proof fn lemma_keys_before_step<A: Compactable>(entries: Seq<Indexed<A>>, i: int)
    requires
        0 <= i < entries.len(),
    ensures
        keys_before(entries, i + 1) == keys_before(entries, i).insert(entries[i].value.key_of()),
        is_latest_of_key(entries, i) == !keys_before(entries, i).contains(
            entries[i].value.key_of(),
        ),
{
    let k = entries[i].value.key_of();
    assert forall|x: A::Key| #[trigger] keys_before(entries, i + 1).contains(x) == keys_before(
        entries,
        i,
    ).insert(k).contains(x) by {
        if keys_before(entries, i + 1).contains(x) {
            let j = choose|j: int| 0 <= j < i + 1 && entries[j].value.key_of() == x;
            if j < i {
                assert(keys_before(entries, i).contains(x));
            }
        }
        if keys_before(entries, i).contains(x) {
            let j = choose|j: int| 0 <= j < i && entries[j].value.key_of() == x;
            assert(0 <= j < i + 1 && entries[j].value.key_of() == x);
        }
        if x == k {
            assert(0 <= i < i + 1 && entries[i].value.key_of() == x);
        }
    }
    assert(keys_before(entries, i + 1) =~= keys_before(entries, i).insert(k));
    if !is_latest_of_key(entries, i) {
        let j = choose|j: int| 0 <= j < i && entries[j].value.key_of() == k;
        assert(keys_before(entries, i).contains(k));
    }
    if keys_before(entries, i).contains(k) {
        let j = choose|j: int| 0 <= j < i && entries[j].value.key_of() == k;
        assert(!is_latest_of_key(entries, i));
    }
}

proof fn lemma_latest_from_step<A: Compactable>(entries: Seq<Indexed<A>>, i: nat)
    requires
        i < entries.len(),
    ensures
        latest_from(entries, i) == (if is_latest_of_key(entries, i as int) {
            seq![entries[i as int]]
        } else {
            Seq::empty()
        }) + latest_from(entries, i + 1),
{
    if !is_latest_of_key(entries, i as int) {
        assert(Seq::<Indexed<A>>::empty() + latest_from(entries, i + 1) =~= latest_from(
            entries,
            i + 1,
        ));
    }
}

/// The position in `entries` of the entry at position `p` of
/// `latest_from(entries, i)`.
pub open spec fn latest_pos<A: Compactable>(entries: Seq<Indexed<A>>, i: nat, p: int) -> int
    decreases entries.len() - i,
{
    if i >= entries.len() {
        0
    } else if is_latest_of_key(entries, i as int) {
        if p <= 0 {
            i as int
        } else {
            latest_pos(entries, i + 1, p - 1)
        }
    } else {
        latest_pos(entries, i + 1, p)
    }
}

/// Every entry of `latest_from(entries, i)` is an entry of `entries` at a
/// position from `i` on that is the youngest with its key, and the entries
/// keep their order.
pub(crate) proof fn lemma_latest_from_shape<A: Compactable>(entries: Seq<Indexed<A>>, i: nat)
    requires
        i <= entries.len(),
    ensures
        forall|p: int|
            0 <= p < latest_from(entries, i).len() ==> {
                &&& i <= #[trigger] latest_pos(entries, i, p) < entries.len()
                &&& latest_from(entries, i)[p] == entries[latest_pos(entries, i, p)]
                &&& is_latest_of_key(entries, latest_pos(entries, i, p))
            },
        forall|p: int, q: int|
            0 <= p < q < latest_from(entries, i).len() ==> #[trigger] latest_pos(entries, i, p)
                < #[trigger] latest_pos(entries, i, q),
    decreases entries.len() - i,
{
    let res = latest_from(entries, i);
    if i < entries.len() {
        lemma_latest_from_shape(entries, i + 1);
        let rest = latest_from(entries, i + 1);
        if is_latest_of_key(entries, i as int) {
            assert(res == seq![entries[i as int]] + rest);
            assert forall|p: int| 0 <= p < res.len() implies {
                &&& i <= #[trigger] latest_pos(entries, i, p) < entries.len()
                &&& res[p] == entries[latest_pos(entries, i, p)]
                &&& is_latest_of_key(entries, latest_pos(entries, i, p))
            } by {
                if p > 0 {
                    assert(res[p] == rest[p - 1]);
                    assert(latest_pos(entries, i, p) == latest_pos(entries, i + 1, p - 1));
                }
            }
            assert forall|p: int, q: int| 0 <= p < q < res.len() implies #[trigger] latest_pos(
                entries,
                i,
                p,
            ) < #[trigger] latest_pos(entries, i, q) by {
                assert(latest_pos(entries, i, q) == latest_pos(entries, i + 1, q - 1));
                if p > 0 {
                    assert(latest_pos(entries, i, p) == latest_pos(entries, i + 1, p - 1));
                }
            }
        } else {
            assert(res == rest);
            assert forall|p: int| 0 <= p < res.len() implies {
                &&& i <= #[trigger] latest_pos(entries, i, p) < entries.len()
                &&& res[p] == entries[latest_pos(entries, i, p)]
                &&& is_latest_of_key(entries, latest_pos(entries, i, p))
            } by {
                assert(latest_pos(entries, i, p) == latest_pos(entries, i + 1, p));
            }
            assert forall|p: int, q: int| 0 <= p < q < res.len() implies #[trigger] latest_pos(
                entries,
                i,
                p,
            ) < #[trigger] latest_pos(entries, i, q) by {
                assert(latest_pos(entries, i, q) == latest_pos(entries, i + 1, q));
                assert(latest_pos(entries, i, p) == latest_pos(entries, i + 1, p));
            }
        }
    }
}

/// Offsets that descend strictly from at most `top` lose at least one per
/// position.
proof fn lemma_descending_offsets<A>(s: Seq<Indexed<A>>, top: int, n: int)
    requires
        0 <= n <= s.len(),
        forall|i: int, j: int| 0 <= i < j < s.len() ==> s[i].offset > s[j].offset,
        s.len() > 0 ==> s[0].offset <= top,
    ensures
        forall|i: int| 0 <= i < n ==> #[trigger] s[i].offset <= top - i,
    decreases n,
{
    if n > 0 {
        lemma_descending_offsets(s, top, n - 1);
        if n > 1 {
            assert(s[n - 2].offset > s[n - 1].offset);
        }
    }
}

/// The message `value` after the messages of `older` were merged into it in
/// publication order: the last (oldest) first, the first (youngest) last.
pub open spec fn merge_all<A: Compactable>(value: A, older: Seq<A>) -> A
    decreases older.len(),
{
    if older.len() == 0 {
        value
    } else {
        merge_all(value.merged(older.last()), older.drop_last())
    }
}

/// Whether compaction merges the entry `x` into the entry `e`: same key,
/// and `x` is older.
pub open spec fn absorbs<A: Compactable>(e: Indexed<A>, x: Indexed<A>) -> bool {
    x.value.key_of() == e.value.key_of() && x.offset < e.offset
}

/// The entries that compaction merges into `e`, as a predicate.
pub open spec fn absorbed_by<A: Compactable>(e: Indexed<A>) -> spec_fn(Indexed<A>) -> bool {
    |x: Indexed<A>| absorbs(e, x)
}

/// Whether `e` is the youngest entry of `entries` with its key.
pub open spec fn is_newest<A: Compactable>(entries: Seq<Indexed<A>>, e: Indexed<A>) -> bool {
    forall|i: int|
        0 <= i < entries.len() && (#[trigger] entries[i]).value.key_of() == e.value.key_of()
            ==> entries[i].offset <= e.offset
}

/// The entry `e` after compaction of `entries` down to `m` linear messages:
/// when `e` is the youngest with its key, the dropped older messages with
/// its key (those from position `m` on) are merged into it.
pub open spec fn merge_in<A: Compactable>(entries: Seq<Indexed<A>>, m: nat, e: Indexed<A>) -> Indexed<A> {
    if is_newest(entries, e) {
        Indexed {
            offset: e.offset,
            value: merge_all(
                e.value,
                values_of(entries.skip(m as int).filter(absorbed_by(e))),
            ),
        }
    } else {
        e
    }
}

/// The values merged into `e` by the candidates of a compaction at positions
/// `m` up to `pos` of `entries`.
pub open spec fn pending_merges<A: Compactable>(
    entries: Seq<Indexed<A>>,
    m: int,
    pos: int,
    e: Indexed<A>,
) -> Seq<A> {
    values_of(entries.subrange(m, pos).filter(absorbed_by(e)))
}

/// The messages to be merged, gathered per key while compaction has looked
/// at the candidates at positions `m` up to `pos`.
pub open spec fn merges_gathered<A: Compactable>(
    entries: Seq<Indexed<A>>,
    m: int,
    pos: int,
    merges: Map<A::Key, Vec<A>>,
) -> bool {
    &&& forall|k: A::Key| #[trigger] merges.contains_key(k) ==> keys_before(entries, pos).contains(k)
    &&& forall|p: int|
        0 <= p < pos && #[trigger] is_latest_of_key(entries, p) ==> {
            let k = entries[p].value.key_of();
            &&& merges.contains_key(k) ==> merges[k]@ == pending_merges(entries, m, pos, entries[p])
            &&& !merges.contains_key(k) ==> pending_merges(entries, m, pos, entries[p]).len() == 0
        }
}

proof fn lemma_filter_push<T>(s: Seq<T>, x: T, p: spec_fn(T) -> bool)
    ensures
        s.push(x).filter(p) == (if p(x) {
            s.filter(p).push(x)
        } else {
            s.filter(p)
        }),
{
    reveal(Seq::filter);
    assert(s.push(x).drop_last() =~= s);
}

proof fn lemma_filter_none<T>(s: Seq<T>, p: spec_fn(T) -> bool)
    requires
        forall|i: int| 0 <= i < s.len() ==> !p(#[trigger] s[i]),
    ensures
        s.filter(p).len() == 0,
    decreases s.len(),
{
    reveal(Seq::filter);
    if s.len() > 0 {
        lemma_filter_none(s.drop_last(), p);
    }
}

/// The first entry with the key of the entry at position `j` is the
/// youngest with that key.
proof fn lemma_first_of_key<A: Compactable>(entries: Seq<Indexed<A>>, j: int) -> (p: int)
    requires
        0 <= j < entries.len(),
    ensures
        0 <= p <= j,
        entries[p].value.key_of() == entries[j].value.key_of(),
        is_latest_of_key(entries, p),
    decreases j,
{
    if is_latest_of_key(entries, j) {
        j
    } else {
        let i = choose|i: int| 0 <= i < j && entries[i].value.key_of() == entries[j].value.key_of();
        lemma_first_of_key(entries, i)
    }
}

/// With strictly descending offsets, the youngest entry with a key is the
/// first one with it.
proof fn lemma_newest_is_latest<A: Compactable>(entries: Seq<Indexed<A>>, p: int)
    requires
        0 <= p < entries.len(),
        forall|i: int, j: int|
            0 <= i < j < entries.len() ==> entries[i].offset > entries[j].offset,
    ensures
        is_newest(entries, entries[p]) == is_latest_of_key(entries, p),
{
    if is_latest_of_key(entries, p) {
        assert forall|i: int|
            0 <= i < entries.len() && (#[trigger] entries[i]).value.key_of()
                == entries[p].value.key_of() implies entries[i].offset <= entries[p].offset by {
            if i < p {
                assert(entries[i].value.key_of() != entries[p].value.key_of());
            }
        }
    } else {
        let i = choose|i: int| 0 <= i < p && entries[i].value.key_of() == entries[p].value.key_of();
        assert(entries[i].offset > entries[p].offset);
    }
}

/// Look at the compaction candidate `c`, at position `pos` of the log's
/// entries `d`: keep it when it is the youngest with its key, and otherwise
/// gather it for merging into the youngest entry with its key.
fn take_candidate<A: Compactable>(
    c: Indexed<A>,
    keys: &mut HashSet<A::Key>,
    merges: &mut HashMap<A::Key, Vec<A>>,
    compact: &mut Vec<Indexed<A>>,
    Ghost(d): Ghost<Seq<Indexed<A>>>,
    Ghost(m): Ghost<int>,
    Ghost(pos): Ghost<int>,
)
    requires
        obeys_key_model::<A::Key>(),
        0 <= m <= pos < d.len(),
        d[pos] == c,
        forall|i: int, j: int| 0 <= i < j < d.len() ==> d[i].offset > d[j].offset,
        old(keys)@ == keys_before(d, pos),
        old(compact)@ + latest_from(d, pos as nat) == latest_from(d, m as nat),
        merges_gathered(d, m, pos, old(merges)@),
    ensures
        final(keys)@ == keys_before(d, pos + 1),
        final(compact)@ + latest_from(d, (pos + 1) as nat) == latest_from(d, m as nat),
        merges_gathered(d, m, pos + 1, final(merges)@),
{
    let ghost old_merges = merges@;
    let key = c.value.compaction_key();
    proof {
        lemma_keys_before_step(d, pos);
        lemma_latest_from_step(d, pos as nat);
        assert(d.subrange(m, pos + 1) =~= d.subrange(m, pos).push(c));
    }
    if keys.insert(key) {
        proof {
            assert(compact@.push(c) + latest_from(d, (pos + 1) as nat) =~= compact@ + (seq![c]
                + latest_from(d, (pos + 1) as nat)));
            let k = c.value.key_of();
            assert forall|p: int|
                0 <= p < pos + 1 && #[trigger] is_latest_of_key(d, p) implies {
                let kp = d[p].value.key_of();
                &&& merges@.contains_key(kp) ==> merges@[kp]@ == pending_merges(d, m, pos + 1, d[p])
                &&& !merges@.contains_key(kp) ==> pending_merges(d, m, pos + 1, d[p]).len() == 0
            } by {
                lemma_filter_push(d.subrange(m, pos), c, absorbed_by(d[p]));
                if p == pos {
                    assert forall|i: int| 0 <= i < d.subrange(m, pos + 1).len() implies !absorbed_by(
                        d[p],
                    )(#[trigger] d.subrange(m, pos + 1)[i]) by {
                        assert(d.subrange(m, pos + 1)[i] == d[m + i]);
                    }
                    lemma_filter_none(d.subrange(m, pos + 1), absorbed_by(d[p]));
                    if merges@.contains_key(k) {
                        assert(keys_before(d, pos).contains(k));
                    }
                } else {
                    assert(d[p].value.key_of() != k) by {
                        if d[p].value.key_of() == k {
                            assert(keys_before(d, pos).contains(k));
                        }
                    }
                    assert(d.subrange(m, pos + 1).filter(absorbed_by(d[p])) == d.subrange(
                        m,
                        pos,
                    ).filter(absorbed_by(d[p])));
                }
            }
        }
        compact.push(c);
    } else {
        let key = c.value.compaction_key();
        let ghost k = key;
        let mut list = match merges.remove(&key) {
            Some(list) => list,
            None => Vec::new(),
        };
        proof {
            assert(keys_before(d, pos).contains(k));
            let j = choose|j: int| 0 <= j < pos && d[j].value.key_of() == k;
            let p = lemma_first_of_key(d, j);
            assert(is_latest_of_key(d, p));
            assert(old_merges.contains_key(k) ==> list@ == pending_merges(d, m, pos, d[p]));
            assert(!old_merges.contains_key(k) ==> list@ =~= pending_merges(d, m, pos, d[p]));
        }
        list.push(c.value);
        merges.insert(key, list);
        proof {
            assert(compact@ + latest_from(d, (pos + 1) as nat) =~= compact@ + latest_from(
                d,
                pos as nat,
            ));
            let j = choose|j: int| 0 <= j < pos && d[j].value.key_of() == k;
            let p0 = lemma_first_of_key(d, j);
            assert forall|p: int|
                0 <= p < pos + 1 && #[trigger] is_latest_of_key(d, p) implies {
                let kp = d[p].value.key_of();
                &&& merges@.contains_key(kp) ==> merges@[kp]@ == pending_merges(d, m, pos + 1, d[p])
                &&& !merges@.contains_key(kp) ==> pending_merges(d, m, pos + 1, d[p]).len() == 0
            } by {
                lemma_filter_push(d.subrange(m, pos), c, absorbed_by(d[p]));
                if d[p].value.key_of() == k {
                    if p < p0 {
                        assert(!is_latest_of_key(d, p0));
                    } else if p0 < p {
                        assert(!is_latest_of_key(d, p));
                    }
                    assert(p == p0);
                    assert(values_of(d.subrange(m, pos).filter(absorbed_by(d[p])).push(c))
                        =~= values_of(d.subrange(m, pos).filter(absorbed_by(d[p]))).push(c.value));
                } else {
                    assert(d.subrange(m, pos + 1).filter(absorbed_by(d[p])) == d.subrange(
                        m,
                        pos,
                    ).filter(absorbed_by(d[p])));
                }
            }
            assert forall|kk: A::Key| #[trigger] merges@.contains_key(kk) implies keys_before(
                d,
                pos + 1,
            ).contains(kk) by {
                if kk != k {
                    assert(old_merges.contains_key(kk));
                }
            }
        }
    }
}

/// Merge the messages of `older` into `message`, the last (oldest) first.
fn merge_into<A: Compactable>(message: &mut A, older: Vec<A>)
    requires
        forall|i: int| 0 <= i < older@.len() ==> (#[trigger] older@[i]).key_of() == old(
            message,
        ).key_of(),
    ensures
        *final(message) == merge_all(*old(message), older@),
        final(message).key_of() == old(message).key_of(),
{
    let ghost original = older@;
    let mut older = older;
    while older.len() > 0
        invariant
            older@.len() <= original.len(),
            older@ == original.take(older@.len() as int),
            forall|i: int| 0 <= i < original.len() ==> (#[trigger] original[i]).key_of() == old(
                message,
            ).key_of(),
            message.key_of() == old(message).key_of(),
            merge_all(*message, older@) == merge_all(*old(message), original),
        decreases older@.len(),
    {
        let ghost before = older@;
        match older.pop() {
            Some(x) => {
                proof {
                    assert(older@ =~= original.take(older@.len() as int));
                    assert(x == original[older@.len() as int]);
                    assert(before.drop_last() =~= older@);
                }
                message.compact(x);
            },
            None => {},
        }
    }
}

/// `Vec::reserve_exact`: reserves capacity for exactly `additional` more
/// elements; the contents stay as they are.
#[verifier::external_body]
fn vec_reserve_exact<T>(v: &mut Vec<T>, additional: usize)
    ensures
        final(v)@ == old(v)@,
{
    v.reserve_exact(additional);
}

impl<A> LogView<A> {
    /// A log into which nothing has been pushed.
    pub open spec fn initial(linear_min: nat, linear_hi: nat, linear_max: nat) -> Self {
        LogView {
            entries: Seq::empty(),
            offset: 0,
            linear_len: 0,
            linear_min,
            linear_hi,
            linear_max,
        }
    }

    /// The shape that every log has: offsets descend strictly from the
    /// youngest entry, lie between 1 and the greatest offset, and the linear
    /// part holds consecutive offsets ending with the greatest one.
    pub open spec fn wf(self) -> bool {
        &&& self.linear_len <= self.entries.len()
        &&& self.linear_len <= self.offset
        &&& self.offset <= usize::MAX
        &&& self.linear_min <= self.linear_max
        &&& forall|i: int| 0 <= i < self.linear_len ==> #[trigger] self.entries[i].offset == self.offset - i
        &&& forall|i: int, j: int|
            0 <= i < j < self.entries.len() ==> self.entries[i].offset > self.entries[j].offset
        &&& forall|i: int|
            0 <= i < self.entries.len() ==> 1 <= #[trigger] self.entries[i].offset <= self.offset
    }

    /// Every retained message with an offset greater than `offset`, youngest
    /// first, together with the greater of `offset` and the log's greatest
    /// offset.
    pub open spec fn since(self, offset: nat) -> (nat, Seq<A>) {
        (
            if offset < self.offset { self.offset } else { offset },
            values_of(self.newer(offset)),
        )
    }

    /// The retained entries with an offset greater than `offset`, youngest
    /// first.
    pub open spec fn newer(self, offset: nat) -> Seq<Indexed<A>> {
        self.entries.filter(|e: Indexed<A>| e.offset > offset)
    }

    /// The log with `value` pushed as its youngest message, before any
    /// compaction.
    pub open spec fn appended(self, value: A) -> Self {
        LogView {
            entries: seq![Indexed { offset: (self.offset + 1) as usize, value }] + self.entries,
            offset: self.offset + 1,
            linear_len: self.linear_len + 1,
            linear_min: self.linear_min,
            linear_hi: self.linear_hi,
            linear_max: self.linear_max,
        }
    }
}

impl<A: Compactable> LogView<A> {
    /// The log after compaction: when the linear part is longer than
    /// `linear_min`, it keeps its `linear_min` youngest messages, and of the
    /// older messages only those that are the youngest retained message with
    /// their key remain, in their order. The dropped messages are merged into
    /// the youngest message with their key (`merge_in`).
    pub open spec fn compacted(self) -> Self {
        if self.linear_len > self.linear_min {
            LogView {
                entries: (self.entries.take(self.linear_min as int) + latest_from(
                    self.entries,
                    self.linear_min,
                )).map_values(|e: Indexed<A>| merge_in(self.entries, self.linear_min, e)),
                offset: self.offset,
                linear_len: self.linear_min,
                linear_min: self.linear_min,
                linear_hi: self.linear_hi,
                linear_max: self.linear_max,
            }
        } else {
            self
        }
    }

    /// The log after `value` was pushed: appended, then compacted if the
    /// linear part has reached `linear_max`.
    pub open spec fn pushed(self, value: A) -> Self {
        let appended = self.appended(value);
        if appended.linear_len >= appended.linear_max {
            appended.compacted()
        } else {
            appended
        }
    }

    /// Whether publishers are advised to yield: the linear part has reached
    /// `linear_hi`.
    pub open spec fn is_heavy(self) -> bool {
        self.linear_len >= self.linear_hi
    }
}

/// The data structure of a syndicate: a log of messages with compaction.
#[derive(Debug)]
pub struct Inner<A> {
    /// The most recent elements, with consecutive ascending offsets.
    linear: Vec<A>,
    /// Older elements, with descending offsets.
    non_linear: Vec<Indexed<A>>,
    /// The greatest offset seen, or zero if no element has been seen.
    offset: usize,
    /// Compaction trigger length for the linear vector.
    linear_max: usize,
    /// Yield trigger length for the linear vector.
    linear_hi: usize,
    /// Compaction target length for the linear vector.
    linear_min: usize,
}

impl<A> Inner<A> {
    #[verifier::type_invariant]
    spec fn inv(self) -> bool {
        &&& self.linear@.len() <= self.offset
        &&& self.linear_min <= self.linear_max
        &&& forall|i: int, j: int|
            0 <= i < j < self.non_linear@.len() ==> self.non_linear@[i].offset
                > self.non_linear@[j].offset
        &&& forall|i: int|
            0 <= i < self.non_linear@.len() ==> 1 <= #[trigger] self.non_linear@[i].offset
                <= self.offset - self.linear@.len()
    }

    /// The linear part as entries, youngest first.
    spec fn linear_entries(self) -> Seq<Indexed<A>> {
        Seq::new(
            self.linear@.len(),
            |i: int|
                Indexed {
                    offset: (self.offset - i) as usize,
                    value: self.linear@[self.linear@.len() - 1 - i],
                },
        )
    }

    proof fn lemma_view_wf(&self)
        requires
            self.inv(),
        ensures
            self@.wf(),
            self@.entries.take(self.linear@.len() as int) == self.linear_entries(),
            self@.entries.skip(self.linear@.len() as int) == self.non_linear@,
    {
        let v = self@;
        let lin = self.linear_entries();
        assert(v.entries.take(self.linear@.len() as int) =~= lin);
        assert(v.entries.skip(self.linear@.len() as int) =~= self.non_linear@);
        assert forall|i: int, j: int| 0 <= i < j < v.entries.len() implies v.entries[i].offset
            > v.entries[j].offset by {
            if j < lin.len() {
            } else if i < lin.len() {
                assert(v.entries[j] == self.non_linear@[j - lin.len()]);
            } else {
                assert(v.entries[i] == self.non_linear@[i - lin.len()]);
                assert(v.entries[j] == self.non_linear@[j - lin.len()]);
            }
        }
        assert forall|i: int| 0 <= i < v.entries.len() implies 1 <= #[trigger] v.entries[i].offset
            <= v.offset by {
            if i >= lin.len() {
                assert(v.entries[i] == self.non_linear@[i - lin.len()]);
            }
        }
    }
}

impl<A> View for Inner<A> {
    type V = LogView<A>;

    closed spec fn view(&self) -> LogView<A> {
        LogView {
            entries: self.linear_entries() + self.non_linear@,
            offset: self.offset as nat,
            linear_len: self.linear@.len(),
            linear_min: self.linear_min as nat,
            linear_hi: self.linear_hi as nat,
            linear_max: self.linear_max as nat,
        }
    }
}

/// Filtering entries with descending offsets by "offset greater than `q`"
/// keeps exactly a prefix.
pub(crate) proof fn lemma_filter_newer_is_prefix<A>(s: Seq<Indexed<A>>, q: nat, k: int)
    requires
        0 <= k <= s.len(),
        forall|i: int| 0 <= i < k ==> #[trigger] s[i].offset > q,
        forall|i: int| k <= i < s.len() ==> #[trigger] s[i].offset <= q,
    ensures
        s.filter(|e: Indexed<A>| e.offset > q) == s.take(k),
    decreases s.len(),
{
    let p = |e: Indexed<A>| e.offset > q;
    if s.len() == 0 {
        reveal(Seq::filter);
        assert(s.take(k) =~= s);
    } else {
        let rest = s.drop_first();
        assert(s =~= seq![s[0]] + rest);
        rest.lemma_filter_prepend(s[0], p);
        if k == 0 {
            lemma_filter_newer_is_prefix(rest, q, 0);
            assert(s.take(k) =~= Seq::<Indexed<A>>::empty());
            assert(rest.take(0) =~= Seq::<Indexed<A>>::empty());
        } else {
            assert forall|i: int| 0 <= i < k - 1 implies #[trigger] rest[i].offset > q by {
                assert(rest[i] == s[i + 1]);
            }
            assert forall|i: int| k - 1 <= i < rest.len() implies #[trigger] rest[i].offset
                <= q by {
                assert(rest[i] == s[i + 1]);
            }
            lemma_filter_newer_is_prefix(rest, q, k - 1);
            assert(s.take(k) =~= seq![s[0]] + rest.take(k - 1));
        }
    }
}

impl<A> Inner<A> {
    /// An empty log with the given configuration.
    pub fn new(linear_min: usize, linear_hi: usize, linear_max: usize) -> (log: Self)
        requires
            linear_min <= linear_max,
        ensures
            log@ == LogView::<A>::initial(linear_min as nat, linear_hi as nat, linear_max as nat),
    {
        let log = Inner { linear: Vec::new(), non_linear: Vec::new(), offset: 0, linear_max, linear_hi, linear_min };
        assert(log.linear_entries() =~= Seq::<Indexed<A>>::empty());
        assert(log@.entries =~= Seq::<Indexed<A>>::empty());
        log
    }
}

impl<A: Clone> Inner<A> {
    /// Every element with an offset greater than `offset`, in order youngest
    /// to oldest, and the highest offset therein (or `offset` itself when the
    /// log holds nothing younger).
    pub fn since(&self, offset: usize) -> (result: (usize, Vec<A>))
        ensures
            self@.wf(),
            result.0 == self@.since(offset as nat).0,
            result.1@.len() == self@.since(offset as nat).1.len(),
            result.1@.len() <= result.0 - offset,
            forall|i: int|
                0 <= i < result.1@.len() ==> cloned(
                    #[trigger] self@.since(offset as nat).1[i],
                    result.1@[i],
                ),
    {
        proof {
            use_type_invariant(self);
            self.lemma_view_wf();
        }
        let ghost v = self@;
        let ghost lin = self.linear_entries();
        let ghost nl = self.non_linear@;
        let len = self.linear.len();
        // do we have the requested offset?
        if offset < self.offset {
            // offset before the oldest linear element
            let offset0 = self.offset - len;
            let mut elements: Vec<A> = Vec::new();
            // satisfy from the linear log?
            if offset >= offset0 {
                // how many elements to skip
                let bound = offset - offset0;
                let mut i = len;
                while i > bound
                    invariant
                        bound <= i <= len,
                        len == self.linear@.len(),
                        lin == self.linear_entries(),
                        elements@.len() == len - i,
                        forall|t: int|
                            0 <= t < elements@.len() ==> cloned(
                                #[trigger] lin[t].value,
                                elements@[t],
                            ),
                    decreases i,
                {
                    i = i - 1;
                    let c = self.linear[i].clone();
                    elements.push(c);
                }
                proof {
                    let k = (len - bound) as int;
                    assert forall|t: int| 0 <= t < k implies #[trigger] v.entries[t].offset
                        > offset by {
                        assert(v.entries[t] == lin[t]);
                    }
                    assert forall|t: int| k <= t < v.entries.len() implies #[trigger] v.entries[t].offset
                        <= offset by {
                        if t < len {
                            assert(v.entries[t] == lin[t]);
                        } else {
                            assert(v.entries[t] == nl[t - len]);
                        }
                    }
                    lemma_filter_newer_is_prefix(v.entries, offset as nat, k);
                    assert forall|t: int| 0 <= t < k implies v.entries.take(k)[t] == lin[t] by {
                        assert(v.entries[t] == lin[t]);
                    }
                    if k > 0 {
                        lemma_descending_offsets(v.entries, v.offset as int, k);
                        assert(v.entries[k - 1].offset > offset);
                    }
                }
            } else {
                let mut i = len;
                while i > 0
                    invariant
                        i <= len,
                        len == self.linear@.len(),
                        lin == self.linear_entries(),
                        elements@.len() == len - i,
                        forall|t: int|
                            0 <= t < elements@.len() ==> cloned(
                                #[trigger] lin[t].value,
                                elements@[t],
                            ),
                    decreases i,
                {
                    i = i - 1;
                    let c = self.linear[i].clone();
                    elements.push(c);
                }
                proof {
                    assert forall|t: int| 0 <= t < len implies v.entries[t] == lin[t] by {}
                }
                // then the non-linear log, as far as it is younger than `offset`
                let mut j: usize = 0;
                while j < self.non_linear.len() && self.non_linear[j].offset > offset
                    invariant
                        j <= self.non_linear@.len(),
                        len == self.linear@.len(),
                        lin == self.linear_entries(),
                        nl == self.non_linear@,
                        v.entries == lin + nl,
                        forall|t: int| 0 <= t < j ==> #[trigger] nl[t].offset > offset,
                        elements@.len() == len + j,
                        forall|t: int|
                            0 <= t < elements@.len() ==> cloned(
                                #[trigger] v.entries[t].value,
                                elements@[t],
                            ),
                    decreases self.non_linear@.len() - j,
                {
                    let c = self.non_linear[j].value.clone();
                    proof {
                        assert(v.entries[len + j] == nl[j as int]);
                    }
                    elements.push(c);
                    j = j + 1;
                }
                proof {
                    let k = (len + j) as int;
                    assert forall|t: int| 0 <= t < k implies #[trigger] v.entries[t].offset
                        > offset by {
                        if t >= len {
                            assert(v.entries[t] == nl[t - len]);
                        }
                    }
                    assert forall|t: int| k <= t < v.entries.len() implies #[trigger] v.entries[t].offset
                        <= offset by {
                        assert(v.entries[t] == nl[t - len]);
                        if j < nl.len() {
                            assert(nl[j as int].offset <= offset);
                            if t > k {
                                assert(v.entries[k] == nl[j as int]);
                            }
                        }
                    }
                    lemma_filter_newer_is_prefix(v.entries, offset as nat, k);
                    if k > 0 {
                        lemma_descending_offsets(v.entries, v.offset as int, k);
                        assert(v.entries[k - 1].offset > offset);
                    }
                }
            }
            (self.offset, elements)
        } else {
            proof {
                lemma_filter_newer_is_prefix(v.entries, offset as nat, 0);
            }
            (offset, Vec::new())
        }
    }
}

impl<A: Compactable> Inner<A> {
    /// Remove messages from the linear part of the log, preserving the most
    /// recent `linear_min`. Add the messages to the non-linear log and
    /// compact it: of the messages outside the retained linear part, only
    /// the youngest with each compaction key remains, and the others are
    /// merged into the youngest message with their key (`Compactable::compact`).
    /// The key type must compare and hash consistently (`obeys_key_model`), as
    /// the keys are gathered in a `HashSet`.
    #[verifier::rlimit(60)]
    pub fn compact(&mut self)
        requires
            obeys_key_model::<A::Key>(),
        ensures
            final(self)@ == old(self)@.compacted(),
            final(self)@.wf(),
    {
        proof {
            use_type_invariant(&*self);
            self.lemma_view_wf();
        }
        let len = self.linear.len();
        // is the linear part of the log longer than minimum?
        if len > self.linear_min {
            let ghost d = self@.entries;
            let ghost lin = self.linear_entries();
            let ghost old_linear = self.linear@;
            let ghost nl = self.non_linear@;
            let ghost m = self.linear_min as int;
            let offset = self.offset;
            let linear_min = self.linear_min;
            // how much to compact
            let bound = len - linear_min;
            // offset of the oldest linear element
            let offset0 = offset - len + 1;
            let mut linear: Vec<A> = Vec::new();
            std::mem::swap(&mut linear, &mut self.linear);
            let mut non_linear: Vec<Indexed<A>> = Vec::new();
            std::mem::swap(&mut non_linear, &mut self.non_linear);
            // keep the youngest part of the linear log; the oldest part remains in `linear`
            let mut retained = linear.split_off(bound);
            proof {
                assert forall|t: int| 0 <= t < m implies d[t] == (Indexed {
                    offset: (offset - t) as usize,
                    value: retained@[m - 1 - t],
                }) by {
                    assert(d[t] == lin[t]);
                }
            }
            // record the compaction keys in the retained linear log
            let mut keys: HashSet<A::Key> = HashSet::new();
            let mut p: usize = 0;
            while p < linear_min
                invariant
                    p <= linear_min,
                    m == linear_min,
                    retained@.len() == m,
                    m <= d.len(),
                    obeys_key_model::<A::Key>(),
                    forall|t: int| 0 <= t < m ==> (#[trigger] d[t]).value == retained@[m - 1 - t],
                    keys@ == keys_before(d, p as int),
                decreases linear_min - p,
            {
                let key = retained[linear_min - 1 - p].compaction_key();
                proof {
                    lemma_keys_before_step(d, p as int);
                }
                keys.insert(key);
                p = p + 1;
            }
            // the removed linear messages, youngest first, then the old non-linear log
            let mut compact: Vec<Indexed<A>> = Vec::new();
            let mut merges: HashMap<A::Key, Vec<A>> = HashMap::new();
            proof {
                assert(compact@ + latest_from(d, m as nat) =~= latest_from(d, m as nat));
                assert forall|q: int|
                    0 <= q < m && #[trigger] is_latest_of_key(d, q) implies pending_merges(
                    d,
                    m,
                    m,
                    d[q],
                ).len() == 0 by {
                    lemma_filter_none(d.subrange(m, m), absorbed_by(d[q]));
                }
            }
            while linear.len() > 0
                invariant
                    linear@.len() <= bound,
                    bound == len - m,
                    len == old_linear.len(),
                    m == linear_min,
                    m < len <= d.len(),
                    offset0 == offset - len + 1,
                    linear@ == old_linear.take(linear@.len() as int),
                    forall|t: int|
                        m <= t < len ==> #[trigger] d[t] == (Indexed {
                            offset: (offset - t) as usize,
                            value: old_linear[len - 1 - t],
                        }),
                    forall|i: int, j: int| 0 <= i < j < d.len() ==> d[i].offset > d[j].offset,
                    obeys_key_model::<A::Key>(),
                    keys@ == keys_before(d, m + bound - linear@.len()),
                    compact@ + latest_from(d, (m + bound - linear@.len()) as nat) == latest_from(
                        d,
                        m as nat,
                    ),
                    merges_gathered(d, m, m + bound - linear@.len(), merges@),
                decreases linear@.len(),
            {
                let ghost pos = m + bound - linear@.len();
                let value = match linear.pop() {
                    Some(a) => a,
                    None => { return; },
                };
                let i = linear.len();
                let c = Indexed { offset: i + offset0, value };
                proof {
                    assert(pos == len - 1 - i);
                    assert(d[pos] == c);
                    assert(linear@ =~= old_linear.take(linear@.len() as int));
                }
                take_candidate(c, &mut keys, &mut merges, &mut compact, Ghost(d), Ghost(m), Ghost(pos));
            }
            // previously compacted elements, youngest first
            let mut older: Vec<Indexed<A>> = Vec::new();
            while non_linear.len() > 0
                invariant
                    non_linear@.len() + older@.len() == nl.len(),
                    non_linear@ == nl.take(non_linear@.len() as int),
                    forall|t: int| 0 <= t < older@.len() ==> older@[t] == nl[nl.len() - 1 - t],
                decreases non_linear@.len(),
            {
                let c = match non_linear.pop() {
                    Some(c) => c,
                    None => { return; },
                };
                proof {
                    assert(non_linear@ =~= nl.take(non_linear@.len() as int));
                }
                older.push(c);
            }
            while older.len() > 0
                invariant
                    older@.len() <= nl.len(),
                    forall|t: int| 0 <= t < older@.len() ==> older@[t] == nl[nl.len() - 1 - t],
                    d == lin + nl,
                    len == lin.len(),
                    d.len() == len + nl.len(),
                    0 <= m < len,
                    forall|i: int, j: int| 0 <= i < j < d.len() ==> d[i].offset > d[j].offset,
                    obeys_key_model::<A::Key>(),
                    keys@ == keys_before(d, len + nl.len() - older@.len()),
                    compact@ + latest_from(d, (len + nl.len() - older@.len()) as nat) == latest_from(
                        d,
                        m as nat,
                    ),
                    merges_gathered(d, m, len + nl.len() - older@.len(), merges@),
                decreases older@.len(),
            {
                let ghost pos = len + nl.len() - older@.len();
                let c = match older.pop() {
                    Some(c) => c,
                    None => { return; },
                };
                proof {
                    assert(d[pos] == nl[pos - len]);
                    assert(d[pos] == c);
                }
                take_candidate(c, &mut keys, &mut merges, &mut compact, Ghost(d), Ghost(m), Ghost(pos));
            }
            let ghost lat = latest_from(d, m as nat);
            let ghost gathered = merges@;
            proof {
                assert(latest_from(d, d.len()) =~= Seq::<Indexed<A>>::empty());
                assert(compact@ =~= compact@ + latest_from(d, d.len()));
                assert(compact@ == lat);
                assert(d.subrange(m, d.len() as int) =~= d.skip(m));
                lemma_latest_from_shape(d, m as nat);
            }
            // merge the gathered messages into the retained linear log
            let mut t: usize = 0;
            while t < linear_min
                invariant
                    t <= linear_min,
                    m == linear_min,
                    retained@.len() == m,
                    m < d.len(),
                    obeys_key_model::<A::Key>(),
                    forall|i: int, j: int| 0 <= i < j < d.len() ==> d[i].offset > d[j].offset,
                    merges_gathered(d, m, d.len() as int, gathered),
                    d.subrange(m, d.len() as int) == d.skip(m),
                    forall|u: int| 0 <= u < t ==> (#[trigger] retained@[m - 1 - u]) == merge_in(d, m as nat, d[u]).value,
                    forall|u: int| t <= u < m ==> (#[trigger] retained@[m - 1 - u]) == d[u].value,
                    forall|k: A::Key| #[trigger] merges@.contains_key(k) == (gathered.contains_key(k)
                        && !keys_before(d, t as int).contains(k)),
                    forall|k: A::Key| #[trigger] merges@.contains_key(k) ==> merges@[k] == gathered[k],
                decreases linear_min - t,
            {
                let ghost before = merges@;
                let key = retained[linear_min - 1 - t].compaction_key();
                let ghost k = key;
                let ghost tt = t as int;
                proof {
                    lemma_keys_before_step(d, tt);
                    lemma_newest_is_latest(d, tt);
                    assert(d[tt].value == retained@[m - 1 - tt]);
                }
                match merges.remove(&key) {
                    Some(list) => {
                        proof {
                            assert(is_latest_of_key(d, tt));
                            assert(list@ == pending_merges(d, m, d.len() as int, d[tt]));
                            assert forall|i: int| 0 <= i < list@.len() implies (#[trigger] list@[i]).key_of()
                                == d[tt].value.key_of() by {
                                let f = d.subrange(m, d.len() as int).filter(absorbed_by(d[tt]));
                                assert(f.len() == list@.len());
                                d.subrange(m, d.len() as int).lemma_filter_pred(absorbed_by(d[tt]), i);
                                assert(list@[i] == f[i].value);
                            }
                        }
                        merge_into(&mut retained[linear_min - 1 - t], list);
                    },
                    None => {
                        proof {
                            if is_latest_of_key(d, tt) {
                                assert(!gathered.contains_key(k));
                                assert(values_of(d.skip(m).filter(absorbed_by(d[tt])))
                                    =~= Seq::<A>::empty());
                            }
                        }
                    },
                }
                proof {
                    assert forall|kk: A::Key| #[trigger] merges@.contains_key(kk) == (
                    gathered.contains_key(kk) && !keys_before(d, tt + 1).contains(kk)) by {
                        if kk != k {
                            assert(merges@.contains_key(kk) == before.contains_key(kk));
                        }
                    }
                }
                t = t + 1;
            }
            // merge the gathered messages into the kept older messages
            let mut j: usize = 0;
            while j < compact.len()
                invariant
                    j <= compact@.len(),
                    m == linear_min,
                    compact@.len() == lat.len(),
                    lat == latest_from(d, m as nat),
                    m < d.len(),
                    obeys_key_model::<A::Key>(),
                    forall|i: int, j2: int| 0 <= i < j2 < d.len() ==> d[i].offset > d[j2].offset,
                    merges_gathered(d, m, d.len() as int, gathered),
                    d.subrange(m, d.len() as int) == d.skip(m),
                    forall|p: int|
                        0 <= p < lat.len() ==> {
                            &&& m <= #[trigger] latest_pos(d, m as nat, p) < d.len()
                            &&& lat[p] == d[latest_pos(d, m as nat, p)]
                            &&& is_latest_of_key(d, latest_pos(d, m as nat, p))
                        },
                    forall|p: int, q: int|
                        0 <= p < q < lat.len() ==> #[trigger] latest_pos(d, m as nat, p)
                            < #[trigger] latest_pos(d, m as nat, q),
                    forall|u: int| 0 <= u < j ==> (#[trigger] compact@[u]) == merge_in(d, m as nat, lat[u]),
                    forall|u: int| j <= u < lat.len() ==> (#[trigger] compact@[u]) == lat[u],
                    forall|k: A::Key| #[trigger] merges@.contains_key(k) == (gathered.contains_key(k)
                        && !keys_before(d, m).contains(k)
                        && forall|u: int| 0 <= u < j ==> lat[u].value.key_of() != k),
                    forall|k: A::Key| #[trigger] merges@.contains_key(k) ==> merges@[k] == gathered[k],
                decreases lat.len() - j,
            {
                let ghost before = merges@;
                let key = compact[j].value.compaction_key();
                let ghost k = key;
                let ghost q = latest_pos(d, m as nat, j as int);
                proof {
                    assert(0 <= j < lat.len());
                    assert(m <= q < d.len());
                    lemma_newest_is_latest(d, q);
                    assert(compact@[j as int] == lat[j as int]);
                    assert(lat[j as int] == d[q]);
                    assert(k == d[q].value.key_of());
                    assert(!keys_before(d, m).contains(k)) by {
                        if keys_before(d, m).contains(k) {
                            let w = choose|w: int| 0 <= w < m && d[w].value.key_of() == k;
                            assert(!is_latest_of_key(d, q));
                        }
                    }
                    assert forall|u: int| 0 <= u < j implies lat[u].value.key_of() != k by {
                        let qu = latest_pos(d, m as nat, u);
                        assert(qu < q);
                        assert(lat[u] == d[qu]);
                        assert(is_latest_of_key(d, q));
                    }
                }
                match merges.remove(&key) {
                    Some(list) => {
                        proof {
                            assert(list@ == pending_merges(d, m, d.len() as int, d[q]));
                            assert forall|i: int| 0 <= i < list@.len() implies (#[trigger] list@[i]).key_of()
                                == d[q].value.key_of() by {
                                let f = d.subrange(m, d.len() as int).filter(absorbed_by(d[q]));
                                assert(f.len() == list@.len());
                                d.subrange(m, d.len() as int).lemma_filter_pred(absorbed_by(d[q]), i);
                                assert(list@[i] == f[i].value);
                            }
                        }
                        merge_into(&mut compact[j].value, list);
                    },
                    None => {
                        proof {
                            assert(!gathered.contains_key(k));
                            assert(values_of(d.skip(m).filter(absorbed_by(d[q])))
                                =~= Seq::<A>::empty());
                        }
                    },
                }
                proof {
                    assert forall|kk: A::Key| #[trigger] merges@.contains_key(kk) == (
                    gathered.contains_key(kk) && !keys_before(d, m).contains(kk) && forall|u: int|
                        0 <= u < j + 1 ==> lat[u].value.key_of() != kk) by {
                        if kk != k {
                            assert(merges@.contains_key(kk) == before.contains_key(kk));
                        }
                    }
                }
                j = j + 1;
            }
            let ghost raw = d.take(m) + lat;
            let ghost merged = raw.map_values(|e: Indexed<A>| merge_in(d, m as nat, e));
            proof {
                assert forall|a: int| 0 <= a < compact@.len() implies 1 <= #[trigger] compact@[a].offset
                    <= offset - m by {
                    let q = latest_pos(d, m as nat, a);
                    assert(d[m].offset == offset - m);
                }
                assert forall|a: int, b: int| 0 <= a < b < compact@.len() implies compact@[a].offset
                    > compact@[b].offset by {
                    assert(latest_pos(d, m as nat, a) < latest_pos(d, m as nat, b));
                }
            }
            vec_reserve_exact(&mut retained, self.linear_max - linear_min);
            self.non_linear = compact;
            self.linear = retained;
            proof {
                assert(self.linear_entries() =~= merged.take(m)) by {
                    assert forall|u: int| 0 <= u < m implies self.linear_entries()[u] == merged[u] by {
                        assert(d[u] == lin[u]);
                        assert(raw[u] == d[u]);
                    }
                }
                assert(self.non_linear@ =~= merged.skip(m)) by {
                    assert forall|u: int| 0 <= u < lat.len() implies self.non_linear@[u] == merged[m + u] by {
                        assert(raw[m + u] == lat[u]);
                    }
                }
                assert(self@.entries =~= merged);
            }
        }
    }
}

impl<A: Compactable> Inner<A> {
    /// Push a new element onto the log, compacting it when the linear part
    /// has reached `linear_max`. Returns true if the caller is advised to
    /// yield: the linear part has reached `linear_hi`.
    pub fn push(&mut self, value: A) -> (heavy: bool)
        requires
            obeys_key_model::<A::Key>(),
            old(self)@.offset < usize::MAX,
        ensures
            final(self)@ == old(self)@.pushed(value),
            heavy == (final(self)@.linear_len >= final(self)@.linear_hi),
            final(self)@.wf(),
    {
        proof {
            use_type_invariant(&*self);
        }
        let ghost before = self@;
        let ghost old_lin = self.linear_entries();
        self.offset = self.offset + 1;
        let mut linear: Vec<A> = Vec::new();
        std::mem::swap(&mut linear, &mut self.linear);
        linear.push(value);
        self.linear = linear;
        proof {
            let lin = self.linear_entries();
            assert(lin =~= seq![Indexed { offset: self.offset, value }] + old_lin);
            assert(self@.entries =~= before.appended(value).entries);
            assert(self@ =~= before.appended(value));
        }
        // is the linear log getting too long?
        if self.linear.len() >= self.linear_max {
            self.compact();
        }
        // is the linear log somewhat long?
        self.linear.len() >= self.linear_hi
    }
}

impl<A: Compactable> Inner<A> {
    /// Push `value` onto the log, as `push` does, and return whether the
    /// caller is advised to yield. A log whose offsets are used up (it has
    /// taken `usize::MAX` messages) takes no more messages, stays as it is
    /// and advises to yield.
    pub fn publish(&mut self, value: A) -> (heavy: bool)
        requires
            obeys_key_model::<A::Key>(),
        ensures
            old(self)@.offset < usize::MAX ==> final(self)@ == old(self)@.pushed(value) && heavy
                == (final(self)@.linear_len >= final(self)@.linear_hi),
            old(self)@.offset >= usize::MAX ==> final(self)@ == old(self)@ && heavy,
            final(self)@.wf(),
    {
        proof {
            use_type_invariant(&*self);
            self.lemma_view_wf();
        }
        if self.offset < usize::MAX {
            self.push(value)
        } else {
            true
        }
    }
}

} // verus!
