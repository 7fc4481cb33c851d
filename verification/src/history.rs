//! What a log holds after a sequence of pushes: the guarantees that
//! compaction keeps for publishers and subscribers.
use vstd::prelude::*;

use crate::log::{
    absorbed_by, is_latest_of_key, latest_from, merge_all, merge_in, values_of, Indexed, LogView,
};
use crate::Compactable;

verus! {

/// The log reached by pushing the messages of `history`, in order, onto
/// `start`.
pub open spec fn replay<A: Compactable>(start: LogView<A>, history: Seq<A>) -> LogView<A>
    decreases history.len(),
{
    if history.len() == 0 {
        start
    } else {
        replay(start, history.drop_last()).pushed(history.last())
    }
}

/// Whether the message at position `t` of `history` is the most recent one
/// with its compaction key.
pub open spec fn is_last_of_key<A: Compactable>(history: Seq<A>, t: int) -> bool {
    forall|u: int| t < u < history.len() ==> history[u].key_of() != history[t].key_of()
}

/// The compaction keys of the messages of `history`.
pub open spec fn history_keys<A: Compactable>(history: Seq<A>) -> Set<A::Key> {
    history.map_values(|a: A| a.key_of()).to_set()
}

/// What a log keeps of the messages `history` that were pushed onto it,
/// before the linear part is bounded by `linear_max`.
pub open spec fn reflects_loosely<A: Compactable>(v: LogView<A>, history: Seq<A>) -> bool {
    &&& v.wf()
    &&& v.offset == history.len()
    &&& forall|i: int|
        0 <= i < v.entries.len() ==> (#[trigger] v.entries[i]).value.key_of() == history[
        v.entries[i].offset - 1].key_of()
    &&& merging_keeps_younger::<A>() ==> forall|i: int|
        0 <= i < v.entries.len() ==> (#[trigger] v.entries[i]).value == history[v.entries[i].offset
            - 1]
    &&& (v.linear_len >= v.linear_min || v.linear_len == history.len())
    &&& forall|i: int, j: int|
        v.linear_len <= i < j < v.entries.len() ==> (#[trigger] v.entries[i]).value.key_of()
            != (#[trigger] v.entries[j]).value.key_of()
    &&& forall|t: int|
        0 <= t < history.len() && #[trigger] is_last_of_key(history, t) ==> exists|i: int|
            0 <= i < v.entries.len() && (#[trigger] v.entries[i]).offset == t + 1
}

/// What a log keeps of the messages `history` that were pushed onto it.
pub open spec fn reflects<A: Compactable>(v: LogView<A>, history: Seq<A>) -> bool {
    &&& reflects_loosely(v, history)
    &&& v.linear_len <= v.linear_max
    &&& v.linear_min < v.linear_max ==> v.linear_len < v.linear_max
}

/// Whether merging a message into a younger one with the same key keeps the
/// younger one's key, for every two such messages.
pub open spec fn merging_keeps_keys<A: Compactable>() -> bool {
    forall|a: A, b: A| a.key_of() == b.key_of() ==> #[trigger] a.merged(b).key_of() == a.key_of()
}

/// Whether merging retains the younger message unchanged, as the default
/// `Compactable::merged` does.
pub open spec fn merging_keeps_younger<A: Compactable>() -> bool {
    forall|a: A, b: A| #[trigger] a.merged(b) == a
}

/// Merging keeps keys, by the obligation of every `Compactable` impl.
pub proof fn lemma_merging_keeps_keys<A: Compactable>()
    ensures
        merging_keeps_keys::<A>(),
{
    assert forall|a: A, b: A| a.key_of() == b.key_of() implies #[trigger] a.merged(b).key_of()
        == a.key_of() by {
        A::lemma_merged_keeps_key(a, b);
    }
}

proof fn lemma_merge_all_keeps_key<A: Compactable>(value: A, older: Seq<A>)
    requires
        merging_keeps_keys::<A>(),
        forall|i: int| 0 <= i < older.len() ==> (#[trigger] older[i]).key_of() == value.key_of(),
    ensures
        merge_all(value, older).key_of() == value.key_of(),
    decreases older.len(),
{
    if older.len() > 0 {
        let next = value.merged(older.last());
        assert(next.key_of() == value.key_of());
        lemma_merge_all_keeps_key(next, older.drop_last());
    }
}

proof fn lemma_merge_all_keeps_younger<A: Compactable>(value: A, older: Seq<A>)
    requires
        merging_keeps_younger::<A>(),
    ensures
        merge_all(value, older) == value,
    decreases older.len(),
{
    if older.len() > 0 {
        assert(value.merged(older.last()) == value);
        lemma_merge_all_keeps_younger(value, older.drop_last());
    }
}

/// Merging keeps an entry's offset and key, and changes nothing where merging
/// retains the younger message.
proof fn lemma_merge_in<A: Compactable>(entries: Seq<Indexed<A>>, m: nat, e: Indexed<A>)
    requires
        m <= entries.len(),
    ensures
        merge_in(entries, m, e).offset == e.offset,
        merging_keeps_keys::<A>() ==> merge_in(entries, m, e).value.key_of() == e.value.key_of(),
        merging_keeps_younger::<A>() ==> merge_in(entries, m, e) == e,
{
    let s = entries.skip(m as int);
    let f = s.filter(absorbed_by(e));
    let older = values_of(f);
    if merging_keeps_keys::<A>() {
        assert forall|i: int| 0 <= i < older.len() implies (#[trigger] older[i]).key_of()
            == e.value.key_of() by {
            s.lemma_filter_pred(absorbed_by(e), i);
        }
        lemma_merge_all_keeps_key(e.value, older);
    }
    if merging_keeps_younger::<A>() {
        lemma_merge_all_keeps_younger(e.value, older);
    }
}

/// A log whose entries have the offsets, and the keys, of those of a log
/// that reflects `history` (and the same values where merging retains the
/// younger message) reflects `history` too.
proof fn lemma_reflects_alike<A: Compactable>(r: LogView<A>, w: LogView<A>, history: Seq<A>)
    requires
        reflects_loosely(r, history),
        w.entries.len() == r.entries.len(),
        w.offset == r.offset,
        w.linear_len == r.linear_len,
        w.linear_min == r.linear_min,
        w.linear_max == r.linear_max,
        forall|i: int|
            0 <= i < w.entries.len() ==> (#[trigger] w.entries[i]).offset == r.entries[i].offset
                && w.entries[i].value.key_of() == r.entries[i].value.key_of(),
        merging_keeps_younger::<A>() ==> w.entries == r.entries,
    ensures
        reflects_loosely(w, history),
{
    assert forall|i: int| 0 <= i < w.linear_len implies #[trigger] w.entries[i].offset == w.offset
        - i by {
        assert(r.entries[i].offset == r.offset - i);
    }
    assert forall|i: int, j: int| 0 <= i < j < w.entries.len() implies w.entries[i].offset
        > w.entries[j].offset by {
        assert(w.entries[i].offset == r.entries[i].offset);
        assert(w.entries[j].offset == r.entries[j].offset);
    }
    assert forall|i: int| 0 <= i < w.entries.len() implies 1 <= #[trigger] w.entries[i].offset
        <= w.offset by {
        assert(w.entries[i].offset == r.entries[i].offset);
    }
    assert forall|i: int| 0 <= i < w.entries.len() implies (#[trigger] w.entries[i]).value.key_of()
        == history[w.entries[i].offset - 1].key_of() by {
        assert(r.entries[i].value.key_of() == history[r.entries[i].offset - 1].key_of());
    }
    assert forall|i: int, j: int|
        w.linear_len <= i < j < w.entries.len() implies (#[trigger] w.entries[i]).value.key_of()
        != (#[trigger] w.entries[j]).value.key_of() by {
        assert(r.entries[i].value.key_of() != r.entries[j].value.key_of());
    }
    assert forall|t: int| 0 <= t < history.len() && #[trigger] is_last_of_key(history, t) implies exists|
        i: int,
    | 0 <= i < w.entries.len() && (#[trigger] w.entries[i]).offset == t + 1 by {
        let i = choose|i: int| 0 <= i < r.entries.len() && (#[trigger] r.entries[i]).offset == t + 1;
        assert(w.entries[i].offset == t + 1);
    }
}

/// The position in `latest_from(entries, s)` of an entry from position `s`
/// on that is the youngest with its key.
proof fn lemma_latest_from_holds<A: Compactable>(entries: Seq<Indexed<A>>, s: nat, i: int) -> (p: int)
    requires
        s <= i < entries.len(),
        is_latest_of_key(entries, i),
    ensures
        0 <= p < latest_from(entries, s).len(),
        latest_from(entries, s)[p] == entries[i],
    decreases i - s,
{
    if s == i {
        0
    } else {
        let q = lemma_latest_from_holds(entries, s + 1, i);
        if is_latest_of_key(entries, s as int) {
            assert(latest_from(entries, s) == seq![entries[s as int]] + latest_from(entries, s + 1));
            q + 1
        } else {
            q
        }
    }
}

proof fn lemma_appended_reflects<A: Compactable>(v: LogView<A>, history: Seq<A>, value: A)
    requires
        reflects(v, history),
        history.len() < usize::MAX,
    ensures
        reflects_loosely(v.appended(value), history.push(value)),
        v.appended(value).linear_len <= v.linear_max + 1,
{
    let w = v.appended(value);
    let h = history.push(value);
    let n = history.len() as int;
    assert(w.entries[0] == Indexed { offset: (n + 1) as usize, value });
    assert forall|i: int| 1 <= i < w.entries.len() implies #[trigger] w.entries[i] == v.entries[i
        - 1] by {}
    assert forall|i: int| 0 <= i < w.entries.len() implies (#[trigger] w.entries[i]).value.key_of()
        == h[w.entries[i].offset - 1].key_of() by {
        if i > 0 {
            assert(w.entries[i] == v.entries[i - 1]);
        }
    }
    if merging_keeps_younger::<A>() {
        assert forall|i: int| 0 <= i < w.entries.len() implies (#[trigger] w.entries[i]).value
            == h[w.entries[i].offset - 1] by {
            if i > 0 {
                assert(w.entries[i] == v.entries[i - 1]);
            }
        }
    }
    assert forall|i: int, j: int|
        w.linear_len <= i < j < w.entries.len() implies (#[trigger] w.entries[i]).value.key_of()
        != (#[trigger] w.entries[j]).value.key_of() by {
        assert(w.entries[i] == v.entries[i - 1]);
        assert(w.entries[j] == v.entries[j - 1]);
    }
    assert forall|t: int| 0 <= t < h.len() && #[trigger] is_last_of_key(h, t) implies exists|i: int|
        0 <= i < w.entries.len() && (#[trigger] w.entries[i]).offset == t + 1 by {
        if t == n {
            assert(w.entries[0].offset == t + 1);
        } else {
            assert forall|u: int| t < u < history.len() implies history[u].key_of()
                != history[t].key_of() by {
                assert(h[u] == history[u]);
                assert(h[t] == history[t]);
            }
            assert(is_last_of_key(history, t));
            let i = choose|i: int| 0 <= i < v.entries.len() && (#[trigger] v.entries[i]).offset == t + 1;
            assert(w.entries[i + 1] == v.entries[i]);
        }
    }
    assert forall|i: int| 0 <= i < w.linear_len implies #[trigger] w.entries[i].offset == w.offset
        - i by {
        if i > 0 {
            assert(w.entries[i] == v.entries[i - 1]);
        }
    }
    assert forall|i: int, j: int| 0 <= i < j < w.entries.len() implies w.entries[i].offset
        > w.entries[j].offset by {
        assert(w.entries[j] == v.entries[j - 1]);
        if i > 0 {
            assert(w.entries[i] == v.entries[i - 1]);
        }
    }
    assert forall|i: int| 0 <= i < w.entries.len() implies 1 <= #[trigger] w.entries[i].offset
        <= w.offset by {
        if i > 0 {
            assert(w.entries[i] == v.entries[i - 1]);
        }
    }
}

proof fn lemma_compacted_reflects<A: Compactable>(v: LogView<A>, history: Seq<A>)
    requires
        reflects_loosely(v, history),
        merging_keeps_keys::<A>(),
    ensures
        reflects_loosely(v.compacted(), history),
        v.linear_len > v.linear_min ==> v.compacted().linear_len == v.linear_min,
        v.linear_len <= v.linear_min ==> v.compacted() == v,
{
    if v.linear_len > v.linear_min {
        let e = v.entries;
        let m = v.linear_min;
        let lat = latest_from(e, m);
        let w = LogView { entries: e.take(m as int) + lat, ..v.compacted() };
        crate::log::lemma_latest_from_shape(e, m);
        assert forall|p: int| 0 <= p < lat.len() implies #[trigger] w.entries[m + p] == lat[p]
            && lat[p].offset <= e[m as int].offset by {
            let j = crate::log::latest_pos(e, m, p);
            if j > m {
                assert(e[m as int].offset > e[j].offset);
            }
        }
        assert forall|i: int| 0 <= i < m implies #[trigger] w.entries[i] == e[i] by {}
        // shape
        assert forall|i: int, j: int| 0 <= i < j < w.entries.len() implies w.entries[i].offset
            > w.entries[j].offset by {
            if j < m {
                assert(w.entries[i] == e[i]);
                assert(w.entries[j] == e[j]);
            } else if i < m {
                assert(w.entries[i] == e[i]);
                assert(w.entries[j] == lat[j - m]);
                assert(w.entries[m + (j - m)] == lat[j - m] && lat[j - m].offset <= e[m as int].offset);
                assert(e[i].offset > e[m as int].offset);
            } else {
                assert(w.entries[i] == lat[i - m]);
                assert(w.entries[j] == lat[j - m]);
                assert(crate::log::latest_pos(e, m, i - m) < crate::log::latest_pos(e, m, j - m));
            }
        }
        assert forall|i: int| 0 <= i < w.entries.len() implies 1 <= #[trigger] w.entries[i].offset
            <= w.offset by {
            if i >= m {
                assert(w.entries[i] == lat[i - m]);
                let j = crate::log::latest_pos(e, m, i - m);
                assert(e[j] == lat[i - m]);
            }
        }
        assert forall|i: int| 0 <= i < w.entries.len() implies (#[trigger] w.entries[i]).value.key_of()
            == history[w.entries[i].offset - 1].key_of() by {
            if i >= m {
                assert(w.entries[i] == lat[i - m]);
                let j = crate::log::latest_pos(e, m, i - m);
                assert(e[j] == lat[i - m]);
            }
        }
        if merging_keeps_younger::<A>() {
            assert forall|i: int| 0 <= i < w.entries.len() implies (#[trigger] w.entries[i]).value
                == history[w.entries[i].offset - 1] by {
                if i >= m {
                    assert(w.entries[i] == lat[i - m]);
                    let j = crate::log::latest_pos(e, m, i - m);
                    assert(e[j] == lat[i - m]);
                }
            }
        }
        assert forall|i: int, j: int|
            w.linear_len <= i < j < w.entries.len() implies (#[trigger] w.entries[i]).value.key_of()
            != (#[trigger] w.entries[j]).value.key_of() by {
            assert(w.entries[i] == lat[i - m]);
            assert(w.entries[j] == lat[j - m]);
            let pi = crate::log::latest_pos(e, m, i - m);
            let pj = crate::log::latest_pos(e, m, j - m);
            assert(pi < pj);
            assert(is_latest_of_key(e, pj));
        }
        assert forall|t: int| 0 <= t < history.len() && #[trigger] is_last_of_key(history, t) implies exists|
            i: int,
        | 0 <= i < w.entries.len() && (#[trigger] w.entries[i]).offset == t + 1 by {
            let i = choose|i: int| 0 <= i < e.len() && (#[trigger] e[i]).offset == t + 1;
            if i < m {
                assert(w.entries[i] == e[i]);
            } else {
                assert forall|j: int| 0 <= j < i implies e[j].value.key_of() != e[i].value.key_of() by {
                    let u = e[j].offset - 1;
                    assert(e[j].offset > e[i].offset);
                    assert(e[j].value.key_of() == history[u].key_of());
                    assert(e[i].value.key_of() == history[t].key_of());
                }
                assert(is_latest_of_key(e, i));
                let p = lemma_latest_from_holds(e, m, i);
                assert(w.entries[m + p] == e[i]);
            }
        }
        let c = v.compacted();
        assert forall|i: int| 0 <= i < c.entries.len() implies (#[trigger] c.entries[i]).offset
            == w.entries[i].offset && c.entries[i].value.key_of() == w.entries[i].value.key_of() by {
            lemma_merge_in(e, m, w.entries[i]);
        }
        if merging_keeps_younger::<A>() {
            assert forall|i: int| 0 <= i < c.entries.len() implies c.entries[i] == w.entries[i] by {
                lemma_merge_in(e, m, w.entries[i]);
            }
            assert(c.entries =~= w.entries);
        }
        lemma_reflects_alike(w, c, history);
    }
}

proof fn lemma_pushed_reflects<A: Compactable>(v: LogView<A>, history: Seq<A>, value: A)
    requires
        reflects(v, history),
        merging_keeps_keys::<A>(),
        history.len() < usize::MAX,
    ensures
        reflects(v.pushed(value), history.push(value)),
        v.pushed(value).linear_min == v.linear_min,
        v.pushed(value).linear_hi == v.linear_hi,
        v.pushed(value).linear_max == v.linear_max,
{
    lemma_appended_reflects(v, history, value);
    let w = v.appended(value);
    if w.linear_len >= w.linear_max {
        lemma_compacted_reflects(w, history.push(value));
    }
}

/// Pushing the messages of `history` onto a fresh log yields a log that
/// reflects `history`.
proof fn lemma_replay_reflects<A: Compactable>(
    linear_min: nat,
    linear_hi: nat,
    linear_max: nat,
    history: Seq<A>,
)
    requires
        linear_min <= linear_max,
        history.len() <= usize::MAX,
        merging_keeps_keys::<A>(),
    ensures
        reflects(replay(LogView::initial(linear_min, linear_hi, linear_max), history), history),
        replay(LogView::initial(linear_min, linear_hi, linear_max), history).linear_min
            == linear_min,
        replay(LogView::initial(linear_min, linear_hi, linear_max), history).linear_hi
            == linear_hi,
        replay(LogView::initial(linear_min, linear_hi, linear_max), history).linear_max
            == linear_max,
    decreases history.len(),
{
    let start = LogView::<A>::initial(linear_min, linear_hi, linear_max);
    if history.len() == 0 {
    } else {
        let h = history.drop_last();
        lemma_replay_reflects(linear_min, linear_hi, linear_max, h);
        lemma_pushed_reflects(replay(start, h), h, history.last());
        assert(h.push(history.last()) =~= history);
    }
}

/// Publication order is preserved and nothing is invented: the retained
/// messages are listed youngest first with strictly descending offsets, each
/// offset lies between 1 and the number of messages pushed, and each
/// retained message has the key of the message that was pushed at its
/// offset; where merging retains the younger message, it is that message.
pub proof fn law_publication_order<A: Compactable>(
    linear_min: nat,
    linear_hi: nat,
    linear_max: nat,
    history: Seq<A>,
)
    requires
        linear_min <= linear_max,
        history.len() <= usize::MAX,
    ensures
        ({
            let v = replay(LogView::initial(linear_min, linear_hi, linear_max), history);
            &&& v.offset == history.len()
            &&& forall|i: int, j: int|
                0 <= i < j < v.entries.len() ==> v.entries[i].offset > v.entries[j].offset
            &&& forall|i: int|
                0 <= i < v.entries.len() ==> 1 <= (#[trigger] v.entries[i]).offset
                    <= history.len() && v.entries[i].value.key_of() == history[v.entries[i].offset
                    - 1].key_of()
            &&& merging_keeps_younger::<A>() ==> forall|i: int|
                0 <= i < v.entries.len() ==> (#[trigger] v.entries[i]).value == history[
                v.entries[i].offset - 1]
        }),
{
    lemma_merging_keeps_keys::<A>();
    lemma_replay_reflects::<A>(linear_min, linear_hi, linear_max, history);
}

/// The last `linear_min` messages are always retained: the youngest
/// entries carry the offsets and keys of the most recent messages, and are
/// those messages where merging retains the younger message.
pub proof fn law_recent_messages_retained<A: Compactable>(
    linear_min: nat,
    linear_hi: nat,
    linear_max: nat,
    history: Seq<A>,
)
    requires
        linear_min <= linear_max,
        history.len() <= usize::MAX,
    ensures
        ({
            let v = replay(LogView::initial(linear_min, linear_hi, linear_max), history);
            &&& forall|i: int|
                0 <= i < linear_min && i < history.len() ==> i < v.entries.len()
                    && (#[trigger] v.entries[i]).offset == history.len() - i
                    && v.entries[i].value.key_of() == history[history.len() - 1 - i].key_of()
            &&& merging_keeps_younger::<A>() ==> forall|i: int|
                0 <= i < linear_min && i < history.len() ==> #[trigger] v.entries[i] == (Indexed {
                    offset: (history.len() - i) as usize,
                    value: history[history.len() - 1 - i],
                })
        }),
{
    lemma_merging_keeps_keys::<A>();
    lemma_replay_reflects::<A>(linear_min, linear_hi, linear_max, history);
}

/// The most recent message with each compaction key is never dropped: an
/// entry carries its offset and key, and is that message where merging
/// retains the younger message.
pub proof fn law_latest_of_each_key_retained<A: Compactable>(
    linear_min: nat,
    linear_hi: nat,
    linear_max: nat,
    history: Seq<A>,
    t: int,
)
    requires
        linear_min <= linear_max,
        history.len() <= usize::MAX,
        0 <= t < history.len(),
        is_last_of_key(history, t),
    ensures
        ({
            let v = replay(LogView::initial(linear_min, linear_hi, linear_max), history);
            exists|i: int|
                0 <= i < v.entries.len() && (#[trigger] v.entries[i]).offset == t + 1
                    && v.entries[i].value.key_of() == history[t].key_of() && (
                merging_keeps_younger::<A>() ==> v.entries[i].value == history[t])
        }),
{
    lemma_merging_keeps_keys::<A>();
    lemma_replay_reflects::<A>(linear_min, linear_hi, linear_max, history);
    let v = replay(LogView::initial(linear_min, linear_hi, linear_max), history);
    let i = choose|i: int| 0 <= i < v.entries.len() && (#[trigger] v.entries[i]).offset == t + 1;
    assert(v.entries[i].value.key_of() == history[t].key_of());
}

/// The keys of the older (non-linear) entries of `v` are pairwise distinct
/// and among `keys`; then there are no more of them than keys.
proof fn lemma_older_entries_bounded<A: Compactable>(v: LogView<A>, history: Seq<A>)
    requires
        reflects(v, history),
    ensures
        v.entries.len() - v.linear_len <= history_keys(history).len(),
{
    let older = v.entries.skip(v.linear_len as int);
    let ks = older.map_values(|e: Indexed<A>| e.value.key_of());
    assert forall|a: int, b: int| 0 <= a < b < ks.len() implies ks[a] != ks[b] by {
        assert(older[a] == v.entries[v.linear_len + a]);
        assert(older[b] == v.entries[v.linear_len + b]);
    }
    assert(ks.no_duplicates());
    ks.unique_seq_to_set();
    let hk = history.map_values(|a: A| a.key_of());
    assert forall|k: A::Key| ks.to_set().contains(k) implies history_keys(history).contains(k) by {
        let a = choose|a: int| 0 <= a < ks.len() && ks[a] == k;
        let e = v.entries[v.linear_len + a];
        assert(older[a] == e);
        assert(e.value.key_of() == history[e.offset - 1].key_of());
        assert(hk[e.offset - 1] == k);
    }
    vstd::set_lib::lemma_len_subset(ks.to_set(), history_keys(history));
}

/// The log takes bounded space: it retains at most `linear_max` messages
/// beyond one per distinct compaction key among the messages pushed, and at
/// most `linear_max - 1` beyond them when `linear_min < linear_max`.
pub proof fn law_bounded_space<A: Compactable>(
    linear_min: nat,
    linear_hi: nat,
    linear_max: nat,
    history: Seq<A>,
)
    requires
        linear_min <= linear_max,
        history.len() <= usize::MAX,
    ensures
        replay(LogView::initial(linear_min, linear_hi, linear_max), history).entries.len()
            <= linear_max + history_keys(history).len(),
        linear_min < linear_max ==> replay(
            LogView::initial(linear_min, linear_hi, linear_max),
            history,
        ).entries.len() + 1 <= linear_max + history_keys(history).len(),
{
    lemma_merging_keeps_keys::<A>();
    lemma_replay_reflects::<A>(linear_min, linear_hi, linear_max, history);
    let v = replay(LogView::initial(linear_min, linear_hi, linear_max), history);
    lemma_older_entries_bounded(v, history);
}

/// After each push the recent part stays within its bounds, below
/// `linear_max` when `linear_min < linear_max`, and the keys of the older
/// part are pairwise distinct.
pub proof fn law_push_keeps_shape<A: Compactable>(
    linear_min: nat,
    linear_hi: nat,
    linear_max: nat,
    history: Seq<A>,
)
    requires
        linear_min <= linear_max,
        history.len() <= usize::MAX,
    ensures
        ({
            let v = replay(LogView::initial(linear_min, linear_hi, linear_max), history);
            &&& v.linear_len <= linear_max
            &&& linear_min < linear_max ==> v.linear_len < linear_max
            &&& forall|i: int, j: int|
                v.linear_len <= i < j < v.entries.len() ==> (#[trigger] v.entries[i]).value.key_of()
                    != (#[trigger] v.entries[j]).value.key_of()
        }),
{
    lemma_merging_keeps_keys::<A>();
    lemma_replay_reflects::<A>(linear_min, linear_hi, linear_max, history);
}

/// A subscriber that is at most `linear_min` messages behind misses nothing:
/// where merging retains the younger message, it receives every message
/// pushed after its offset, youngest first.
pub proof fn law_no_loss_within_linear_min<A: Compactable>(
    linear_min: nat,
    linear_hi: nat,
    linear_max: nat,
    history: Seq<A>,
    offset: nat,
)
    requires
        linear_min <= linear_max,
        history.len() <= usize::MAX,
        merging_keeps_younger::<A>(),
        offset <= history.len() <= offset + linear_min,
    ensures
        replay(LogView::initial(linear_min, linear_hi, linear_max), history).since(offset) == (
            history.len(),
            history.subrange(offset as int, history.len() as int).reverse(),
        ),
{
    lemma_merging_keeps_keys::<A>();
    lemma_replay_reflects::<A>(linear_min, linear_hi, linear_max, history);
    let v = replay(LogView::initial(linear_min, linear_hi, linear_max), history);
    let n = history.len() as int;
    let k = n - offset;
    assert(k <= v.linear_len);
    assert forall|i: int| 0 <= i < k implies #[trigger] v.entries[i].offset > offset by {}
    assert forall|i: int| k <= i < v.entries.len() implies #[trigger] v.entries[i].offset
        <= offset by {
        if k > 0 {
            assert(v.entries[k - 1].offset == n - (k - 1));
            assert(v.entries[k - 1].offset > v.entries[i].offset);
        }
    }
    crate::log::lemma_filter_newer_is_prefix(v.entries, offset, k);
    let got = values_of(v.entries.take(k));
    let want = history.subrange(offset as int, n).reverse();
    assert forall|i: int| 0 <= i < k implies got[i] == want[i] by {
        assert(v.entries[i].offset == n - i);
        assert(v.entries.take(k)[i] == v.entries[i]);
        assert(v.entries[i].value == history[v.entries[i].offset - 1]);
    }
    assert(got =~= want);
}

/// After a push, the pushed message is the only one newer than the offset
/// before it: it carries the next offset and its key, and is that message
/// where merging retains the younger message.
pub proof fn law_push_then_since<A: Compactable>(
    linear_min: nat,
    linear_hi: nat,
    linear_max: nat,
    history: Seq<A>,
    value: A,
)
    requires
        linear_min <= linear_max,
        history.len() < usize::MAX,
    ensures
        ({
            let v = replay(LogView::initial(linear_min, linear_hi, linear_max), history.push(value));
            let (offset, newer) = v.since(history.len());
            &&& offset == history.len() + 1
            &&& newer.len() == 1
            &&& newer[0].key_of() == value.key_of()
            &&& merging_keeps_younger::<A>() ==> newer == seq![value]
        }),
{
    lemma_merging_keeps_keys::<A>();
    let h = history.push(value);
    let n = history.len() as int;
    lemma_replay_reflects::<A>(linear_min, linear_hi, linear_max, h);
    let v = replay(LogView::initial(linear_min, linear_hi, linear_max), h);
    assert(is_last_of_key(h, n));
    let i = choose|i: int| 0 <= i < v.entries.len() && (#[trigger] v.entries[i]).offset == n + 1;
    if i > 0 {
        assert(v.entries[0].offset > v.entries[i].offset);
    }
    assert forall|j: int| 0 <= j < 1 implies #[trigger] v.entries[j].offset > n by {}
    assert forall|j: int| 1 <= j < v.entries.len() implies #[trigger] v.entries[j].offset <= n by {
        assert(v.entries[0].offset > v.entries[j].offset);
    }
    crate::log::lemma_filter_newer_is_prefix(v.entries, n as nat, 1);
    assert(v.entries[0].value.key_of() == h[n].key_of());
}

/// Reading from a later offset gives a prefix of what reading from an
/// earlier offset gives (the entries are youngest first), and an offset no
/// smaller.
pub proof fn law_since_later_is_prefix<A>(v: LogView<A>, earlier: nat, later: nat)
    requires
        v.wf(),
        earlier <= later,
    ensures
        v.since(earlier).0 <= v.since(later).0,
        v.since(later).1.len() <= v.since(earlier).1.len(),
        v.since(later).1 == v.since(earlier).1.take(v.since(later).1.len() as int),
{
    let k1 = lemma_count_newer(v.entries, earlier);
    let k2 = lemma_count_newer(v.entries, later);
    crate::log::lemma_filter_newer_is_prefix(v.entries, earlier, k1);
    crate::log::lemma_filter_newer_is_prefix(v.entries, later, k2);
    if k2 > k1 {
        assert(v.entries[k1].offset <= earlier);
    }
    assert(values_of(v.entries.take(k2)) =~= values_of(v.entries.take(k1)).take(k2));
}

/// With strictly descending offsets, the entries with an offset greater than
/// `q` form a prefix; its length.
pub(crate) proof fn lemma_count_newer<A>(s: Seq<Indexed<A>>, q: nat) -> (k: int)
    requires
        forall|i: int, j: int| 0 <= i < j < s.len() ==> s[i].offset > s[j].offset,
    ensures
        0 <= k <= s.len(),
        forall|i: int| 0 <= i < k ==> #[trigger] s[i].offset > q,
        forall|i: int| k <= i < s.len() ==> #[trigger] s[i].offset <= q,
    decreases s.len(),
{
    if s.len() == 0 {
        0
    } else if s[s.len() - 1].offset > q {
        s.len() as int
    } else {
        let k = lemma_count_newer(s.drop_last(), q);
        assert forall|i: int| 0 <= i < k implies #[trigger] s[i].offset > q by {
            assert(s.drop_last()[i] == s[i]);
        }
        assert forall|i: int| k <= i < s.len() implies #[trigger] s[i].offset <= q by {
            if i < s.len() - 1 {
                assert(s.drop_last()[i] == s[i]);
            }
        }
        k
    }
}

/// Compacting twice gives what compacting once gives.
pub proof fn law_compaction_is_idempotent<A: Compactable>(v: LogView<A>)
    ensures
        v.compacted().compacted() == v.compacted(),
{
}

/// A message with a given key is followed in `history` by a last message
/// with that key.
proof fn lemma_last_of_key_exists<A: Compactable>(history: Seq<A>, t: int) -> (last: int)
    requires
        0 <= t < history.len(),
    ensures
        t <= last < history.len(),
        is_last_of_key(history, last),
        history[last].key_of() == history[t].key_of(),
    decreases history.len() - t,
{
    if is_last_of_key(history, t) {
        t
    } else {
        let u = choose|u: int| t < u < history.len() && history[u].key_of() == history[t].key_of();
        lemma_last_of_key_exists(history, u)
    }
}

/// Every compaction key among the messages pushed is represented: the log
/// retains at least one message per distinct key.
pub proof fn law_every_key_represented<A: Compactable>(
    linear_min: nat,
    linear_hi: nat,
    linear_max: nat,
    history: Seq<A>,
)
    requires
        linear_min <= linear_max,
        history.len() <= usize::MAX,
    ensures
        ({
            let v = replay(LogView::initial(linear_min, linear_hi, linear_max), history);
            &&& forall|k: A::Key|
                #[trigger] history_keys(history).contains(k) ==> exists|i: int|
                    0 <= i < v.entries.len() && (#[trigger] v.entries[i]).value.key_of() == k
            &&& v.entries.len() >= history_keys(history).len()
        }),
{
    lemma_merging_keeps_keys::<A>();
    lemma_replay_reflects::<A>(linear_min, linear_hi, linear_max, history);
    let v = replay(LogView::initial(linear_min, linear_hi, linear_max), history);
    let hk = history.map_values(|a: A| a.key_of());
    let ek = v.entries.map_values(|e: Indexed<A>| e.value.key_of());
    assert forall|k: A::Key| #[trigger] history_keys(history).contains(k) implies exists|i: int|
        0 <= i < v.entries.len() && (#[trigger] v.entries[i]).value.key_of() == k by {
        let t = choose|t: int| 0 <= t < hk.len() && hk[t] == k;
        let last = lemma_last_of_key_exists(history, t);
        let i = choose|i: int| 0 <= i < v.entries.len() && (#[trigger] v.entries[i]).offset == last
            + 1;
        assert(v.entries[i].value.key_of() == history[last].key_of());
    }
    assert forall|k: A::Key| history_keys(history).contains(k) implies ek.to_set().contains(k) by {
        let i = choose|i: int|
            0 <= i < v.entries.len() && (#[trigger] v.entries[i]).value.key_of() == k;
        assert(ek[i] == k);
    }
    ek.lemma_cardinality_of_set();
    vstd::set_lib::lemma_len_subset(history_keys(history), ek.to_set());
}

/// The keys of the older part of `v` are pairwise distinct.
pub open spec fn older_keys_distinct<A: Compactable>(v: LogView<A>) -> bool {
    forall|i: int, j: int|
        v.linear_len <= i < j < v.entries.len() ==> (#[trigger] v.entries[i]).value.key_of()
            != (#[trigger] v.entries[j]).value.key_of()
}

/// Compaction keeps the shape of every log. When it happens, the older part
/// it leaves has pairwise distinct keys, none of them the key of a message
/// of the recent part, and offsets that descend from at most
/// `offset - linear_min`.
pub proof fn law_compaction_separates_keys<A: Compactable>(v: LogView<A>)
    requires
        v.wf(),
    ensures
        v.compacted().wf(),
        v.linear_len > v.linear_min ==> {
            let w = v.compacted();
            &&& w.linear_len == v.linear_min
            &&& forall|i: int, j: int|
                0 <= i < j < w.entries.len() && j >= w.linear_len ==> (
                #[trigger] w.entries[i]).value.key_of() != (#[trigger] w.entries[j]).value.key_of()
            &&& forall|j: int|
                w.linear_len <= j < w.entries.len() ==> (#[trigger] w.entries[j]).offset <= v.offset
                    - v.linear_min
        },
{
    lemma_merging_keeps_keys::<A>();
    if v.linear_len > v.linear_min {
        let e = v.entries;
        let m = v.linear_min;
        let lat = latest_from(e, m);
        let raw = e.take(m as int) + lat;
        let w = v.compacted();
        crate::log::lemma_latest_from_shape(e, m);
        // the position in `e` of each entry of `w`
        assert forall|i: int| 0 <= i < w.entries.len() implies {
            let q = if i < m { i } else { crate::log::latest_pos(e, m, i - m) };
            &&& 0 <= q < e.len()
            &&& (i >= m ==> m <= q && is_latest_of_key(e, q))
            &&& (#[trigger] w.entries[i]).offset == e[q].offset
            &&& w.entries[i].value.key_of() == e[q].value.key_of()
        } by {
            let q = if i < m { i } else { crate::log::latest_pos(e, m, i - m) };
            if i < m {
                assert(raw[i] == e[i]);
            } else {
                assert(raw[i] == lat[i - m]);
            }
            lemma_merge_in(e, m, raw[i]);
        }
        assert forall|i: int, j: int| 0 <= i < j < w.entries.len() implies w.entries[i].offset
            > w.entries[j].offset by {
            let qi = if i < m { i } else { crate::log::latest_pos(e, m, i - m) };
            let qj = if j < m { j } else { crate::log::latest_pos(e, m, j - m) };
            assert(w.entries[i].offset == e[qi].offset);
            assert(w.entries[j].offset == e[qj].offset);
            if i >= m {
                assert(crate::log::latest_pos(e, m, i - m) < crate::log::latest_pos(e, m, j - m));
            }
            assert(qi < qj);
        }
        assert forall|i: int, j: int|
            0 <= i < j < w.entries.len() && j >= w.linear_len implies (
            #[trigger] w.entries[i]).value.key_of() != (#[trigger] w.entries[j]).value.key_of() by {
            let qi = if i < m { i } else { crate::log::latest_pos(e, m, i - m) };
            let qj = crate::log::latest_pos(e, m, j - m);
            assert(w.entries[i].value.key_of() == e[qi].value.key_of());
            assert(w.entries[j].value.key_of() == e[qj].value.key_of());
            if i >= m {
                assert(crate::log::latest_pos(e, m, i - m) < crate::log::latest_pos(e, m, j - m));
            }
            assert(qi < qj);
            assert(is_latest_of_key(e, qj));
        }
        assert forall|j: int| w.linear_len <= j < w.entries.len() implies (
        #[trigger] w.entries[j]).offset <= v.offset - v.linear_min by {
            let qj = crate::log::latest_pos(e, m, j - m);
            assert(w.entries[j].offset == e[qj].offset);
            assert(e[m as int].offset == v.offset - m);
            if qj > m {
                assert(e[m as int].offset > e[qj].offset);
            }
        }
        assert forall|i: int| 0 <= i < w.linear_len implies #[trigger] w.entries[i].offset
            == w.offset - i by {
            assert(w.entries[i].offset == e[i].offset);
        }
        assert forall|i: int| 0 <= i < w.entries.len() implies 1 <= #[trigger] w.entries[i].offset
            <= w.offset by {
            let qi = if i < m { i } else { crate::log::latest_pos(e, m, i - m) };
            assert(w.entries[i].offset == e[qi].offset);
        }
    }
}

/// Every push keeps the shape of the log; keeps the recent part within
/// `linear_max`, below it when `linear_min < linear_max`; and keeps the keys
/// of the older part pairwise distinct.
pub proof fn law_push_keeps_shape_of_any_log<A: Compactable>(v: LogView<A>, value: A)
    requires
        v.wf(),
        v.offset < usize::MAX,
        v.linear_len <= v.linear_max,
        v.linear_min < v.linear_max ==> v.linear_len < v.linear_max,
        older_keys_distinct(v),
    ensures
        v.pushed(value).wf(),
        v.pushed(value).linear_len <= v.linear_max,
        v.linear_min < v.linear_max ==> v.pushed(value).linear_len < v.linear_max,
        older_keys_distinct(v.pushed(value)),
{
    let a = v.appended(value);
    lemma_appended_wf(v, value);
    assert forall|i: int, j: int|
        a.linear_len <= i < j < a.entries.len() implies (#[trigger] a.entries[i]).value.key_of()
        != (#[trigger] a.entries[j]).value.key_of() by {
        assert(a.entries[i] == v.entries[i - 1]);
        assert(a.entries[j] == v.entries[j - 1]);
    }
    if a.linear_len >= a.linear_max {
        law_compaction_separates_keys(a);
    }
}

proof fn lemma_appended_wf<A: Compactable>(v: LogView<A>, value: A)
    requires
        v.wf(),
        v.offset < usize::MAX,
    ensures
        v.appended(value).wf(),
        v.appended(value).entries[0] == (Indexed { offset: (v.offset + 1) as usize, value }),
        forall|i: int|
            1 <= i < v.appended(value).entries.len() ==> #[trigger] v.appended(value).entries[i]
                == v.entries[i - 1],
{
    let w = v.appended(value);
    assert forall|i: int| 1 <= i < w.entries.len() implies #[trigger] w.entries[i] == v.entries[i
        - 1] by {}
    assert forall|i: int| 0 <= i < w.linear_len implies #[trigger] w.entries[i].offset == w.offset
        - i by {
        if i > 0 {
            assert(w.entries[i] == v.entries[i - 1]);
        }
    }
    assert forall|i: int, j: int| 0 <= i < j < w.entries.len() implies w.entries[i].offset
        > w.entries[j].offset by {
        assert(w.entries[j] == v.entries[j - 1]);
        if i > 0 {
            assert(w.entries[i] == v.entries[i - 1]);
        }
    }
    assert forall|i: int| 0 <= i < w.entries.len() implies 1 <= #[trigger] w.entries[i].offset
        <= w.offset by {
        if i > 0 {
            assert(w.entries[i] == v.entries[i - 1]);
        }
    }
}

/// After a push onto any log, the pushed message is the only one newer than
/// the offset before it: it carries the next offset and its key, and is that
/// message where merging retains the younger message.
pub proof fn law_push_then_since_on_any_log<A: Compactable>(v: LogView<A>, value: A)
    requires
        v.wf(),
        v.offset < usize::MAX,
    ensures
        ({
            let (offset, newer) = v.pushed(value).since(v.offset);
            &&& offset == v.offset + 1
            &&& newer.len() == 1
            &&& newer[0].key_of() == value.key_of()
            &&& merging_keeps_younger::<A>() ==> newer == seq![value]
        }),
{
    lemma_merging_keeps_keys::<A>();
    let a = v.appended(value);
    lemma_appended_wf(v, value);
    let p = v.pushed(value);
    let n = v.offset;
    // the youngest entry of `p` is the pushed message, possibly merged
    assert(p.entries.len() >= 1 && p.entries[0].offset == n + 1 && p.entries[0].value.key_of()
        == value.key_of() && (merging_keeps_younger::<A>() ==> p.entries[0].value == value)) by {
        if a.linear_len >= a.linear_max && a.linear_len > a.linear_min {
            let e = a.entries;
            let m = a.linear_min;
            let lat = latest_from(e, m);
            let raw = e.take(m as int) + lat;
            if m == 0 {
                assert(is_latest_of_key(e, 0));
                assert(lat == seq![e[0]] + latest_from(e, 1));
            }
            assert(raw[0] == e[0]);
            lemma_merge_in(e, m, raw[0]);
        }
    }
    law_compaction_separates_keys(a);
    assert forall|j: int| 0 <= j < 1 implies #[trigger] p.entries[j].offset > n by {}
    assert forall|j: int| 1 <= j < p.entries.len() implies #[trigger] p.entries[j].offset <= n by {
        assert(p.entries[0].offset > p.entries[j].offset);
    }
    crate::log::lemma_filter_newer_is_prefix(p.entries, n, 1);
}

/// The entries that reading from `offset` returns have descending offsets,
/// each greater than `offset` and at most the offset that the read returns.
pub proof fn lemma_newer_shape<A>(v: LogView<A>, offset: nat)
    requires
        v.wf(),
    ensures
        v.newer(offset).len() == v.since(offset).1.len(),
        forall|i: int, j: int|
            0 <= i < j < v.newer(offset).len() ==> v.newer(offset)[i].offset > v.newer(
                offset,
            )[j].offset,
        forall|i: int|
            0 <= i < v.newer(offset).len() ==> offset < (#[trigger] v.newer(offset)[i]).offset
                <= v.since(offset).0,
{
    let k = lemma_count_newer(v.entries, offset);
    crate::log::lemma_filter_newer_is_prefix(v.entries, offset, k);
    assert forall|i: int| 0 <= i < v.newer(offset).len() implies offset < (#[trigger] v.newer(
        offset,
    )[i]).offset <= v.since(offset).0 by {
        assert(v.newer(offset)[i] == v.entries[i]);
    }
    assert forall|i: int, j: int| 0 <= i < j < v.newer(offset).len() implies v.newer(offset)[i].offset
        > v.newer(offset)[j].offset by {
        assert(v.newer(offset)[i] == v.entries[i]);
        assert(v.newer(offset)[j] == v.entries[j]);
    }
}

/// The advice to yield after a push: the linear part grows by the pushed
/// message, drops back to `linear_min` when it reaches `linear_max` and is
/// longer than `linear_min`, and publishers are advised to yield exactly
/// when it then holds at least `linear_hi` messages. The advice is monotone:
/// a longer linear part never withdraws it.
pub proof fn law_push_advice<A: Compactable>(v: LogView<A>, value: A)
    requires
        v.wf(),
    ensures
        ({
            let n = v.linear_len + 1;
            let kept = if n >= v.linear_max && n > v.linear_min {
                v.linear_min
            } else {
                n
            };
            &&& v.pushed(value).linear_len == kept
            &&& v.pushed(value).is_heavy() <==> kept >= v.linear_hi
        }),
        forall|w: LogView<A>|
            #![trigger w.pushed(value)]
            w.linear_hi == v.linear_hi && v.pushed(value).linear_len <= w.pushed(value).linear_len
                && v.pushed(value).is_heavy() ==> w.pushed(value).is_heavy(),
{
}

} // verus!
