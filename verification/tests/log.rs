use rand::Rng;
use std::collections::HashSet;
use syndicus::{Compactable, Inner};

#[derive(Debug, Clone, PartialEq, Eq)]
pub struct Message(usize, usize);

impl Compactable for Message {
    type Key = usize;
    fn key_of(&self) -> usize {
        self.0
    }
    fn compaction_key(&self) -> usize {
        self.key_of()
    }
    fn lemma_merged_keeps_key(_younger: Self, _older: Self) {}
    fn compact(&mut self, _other: Self) {}
}

fn m(key: usize, id: usize) -> Message {
    Message(key, id)
}

/// Pushes messages with the given keys, numbered from 1, and returns the
/// yield advice of each push.
fn fill(log: &mut Inner<Message>, keys: &[usize]) -> Vec<bool> {
    let mut heavy = Vec::new();
    for (i, k) in keys.iter().enumerate() {
        heavy.push(log.push(m(*k, i + 1)));
    }
    heavy
}

fn random_data(key_space: usize, run_length: usize) -> Vec<Message> {
    let mut rng = rand::thread_rng();
    (1..=run_length)
        .map(|j| Message(rng.gen_range(0usize..key_space), j))
        .collect()
}

#[test]
fn empty_log_has_nothing_since_zero() {
    let log: Inner<Message> = Inner::new(10, 15, 20);
    assert_eq!(log.since(0), (0, vec![]));
    assert_eq!(log.since(5), (5, vec![]));
}

#[test]
fn push_without_compaction_keeps_everything() {
    let mut log = Inner::new(10, 15, 20);
    fill(&mut log, &[1, 1, 1]);
    assert_eq!(log.since(0), (3, vec![m(1, 3), m(1, 2), m(1, 1)]));
    assert_eq!(log.since(1), (3, vec![m(1, 3), m(1, 2)]));
    assert_eq!(log.since(3), (3, vec![]));
    assert_eq!(log.since(7), (7, vec![]));
}

#[test]
fn push_compacts_at_linear_max() {
    // linear_min 1, linear_hi 2, linear_max 3
    let mut log = Inner::new(1, 2, 3);
    let heavy = fill(&mut log, &[1, 2, 1, 3, 1, 2, 3]);
    assert_eq!(heavy, vec![false, true, false, true, false, true, false]);
    assert_eq!(log.since(0), (7, vec![m(3, 7), m(2, 6), m(1, 5)]));
    assert_eq!(log.since(5), (7, vec![m(3, 7), m(2, 6)]));
    assert_eq!(log.since(6), (7, vec![m(3, 7)]));
    assert_eq!(log.since(7), (7, vec![]));
    assert_eq!(log.since(9), (9, vec![]));
}

#[test]
fn compaction_state_after_first_compaction() {
    let mut log = Inner::new(1, 2, 3);
    fill(&mut log, &[1, 2, 1]);
    // m1 was dropped: m3 is younger with the same key
    assert_eq!(log.since(0), (3, vec![m(1, 3), m(2, 2)]));
    fill(&mut log, &[3]);
    assert_eq!(log.since(0), (4, vec![m(3, 1), m(1, 3), m(2, 2)]));
}

#[test]
fn compact_keeps_linear_min_and_latest_of_each_key() {
    let mut log = Inner::new(2, 100, 100);
    fill(&mut log, &[1, 2, 1, 2, 3, 1]);
    log.compact();
    // retained linear part: m5 (key 3) and m6 (key 1); of the older ones
    // only m4 (the latest with key 2) remains
    assert_eq!(log.since(0), (6, vec![m(1, 6), m(3, 5), m(2, 4)]));
    // compacting again changes nothing
    log.compact();
    assert_eq!(log.since(0), (6, vec![m(1, 6), m(3, 5), m(2, 4)]));
}

#[test]
fn compact_below_linear_min_changes_nothing() {
    let mut log = Inner::new(5, 100, 100);
    fill(&mut log, &[1, 1, 1]);
    log.compact();
    assert_eq!(log.since(0), (3, vec![m(1, 3), m(1, 2), m(1, 1)]));
}

#[test]
fn compact_with_zero_linear_min_keeps_latest_of_each_key() {
    let mut log = Inner::new(0, 100, 100);
    fill(&mut log, &[1, 2, 1, 2]);
    log.compact();
    assert_eq!(log.since(0), (4, vec![m(2, 4), m(1, 3)]));
    assert_eq!(log.since(3), (4, vec![m(2, 4)]));
}

#[test]
fn since_reaches_into_the_compacted_part() {
    let mut log = Inner::new(1, 2, 3);
    fill(&mut log, &[1, 2, 1, 3, 1]);
    // non-linear part: m4 (offset 4), m2 (offset 2); linear part: m5
    assert_eq!(log.since(0), (5, vec![m(1, 5), m(3, 4), m(2, 2)]));
    assert_eq!(log.since(2), (5, vec![m(1, 5), m(3, 4)]));
    assert_eq!(log.since(3), (5, vec![m(1, 5), m(3, 4)]));
    assert_eq!(log.since(4), (5, vec![m(1, 5)]));
}

#[test]
fn compaction_bounds_retained_messages() {
    let test_data = random_data(15, 1007);
    let run_length = test_data.len();
    let mut log = Inner::new(10, 15, 20);
    for msg in test_data {
        log.push(msg);
    }
    let (offset, messages) = log.since(0);
    assert_eq!(offset, run_length);
    let count = messages.len();
    // messages come youngest first, so their numbers descend
    for w in messages.windows(2) {
        assert!(w[0].1 > w[1].1);
    }
    assert!(
        count >= 15 && count < 35,
        "Messages received/sent = {}/{} expected 15..35",
        count,
        run_length
    );
}

#[test]
fn last_linear_min_messages_are_retained() {
    let test_data = random_data(4, 500);
    let mut log = Inner::new(10, 15, 20);
    for msg in test_data.iter() {
        log.push(msg.clone());
    }
    let (_, messages) = log.since(0);
    for i in 0..10 {
        assert_eq!(messages[i], test_data[test_data.len() - 1 - i]);
    }
}

#[test]
fn latest_message_of_each_key_is_retained() {
    let test_data = random_data(15, 1007);
    let mut log = Inner::new(10, 15, 20);
    for msg in test_data.iter() {
        log.push(msg.clone());
    }
    let (_, messages) = log.since(0);
    let mut seen = HashSet::new();
    for msg in test_data.iter().rev() {
        if seen.insert(msg.0) {
            assert!(messages.contains(msg), "missing {:?}", msg);
        }
    }
}

#[test]
fn space_is_bounded_by_keys_and_linear_max() {
    let test_data = random_data(7, 2000);
    let keys: HashSet<usize> = test_data.iter().map(|msg| msg.0).collect();
    let mut log = Inner::new(3, 5, 8);
    for msg in test_data {
        log.push(msg);
        let (_, messages) = log.since(0);
        assert!(messages.len() <= 8 + keys.len());
    }
}

#[test]
fn subscriber_keeping_up_sees_every_message() {
    let test_data = random_data(3, 300);
    let mut log = Inner::new(2, 3, 4);
    let mut offset = 0;
    let mut received = Vec::new();
    for msg in test_data.iter() {
        log.push(msg.clone());
        let (next, mut backlog) = log.since(offset);
        offset = next;
        backlog.reverse();
        received.extend(backlog);
    }
    assert_eq!(received, test_data);
}

#[test]
fn publish_pushes_like_push() {
    let mut a = Inner::new(1, 2, 3);
    let mut b = Inner::new(1, 2, 3);
    for (i, k) in [1usize, 2, 1, 3].iter().enumerate() {
        assert_eq!(a.push(m(*k, i + 1)), b.publish(m(*k, i + 1)));
    }
    assert_eq!(a.since(0), b.since(0));
}

/// A message that gathers the ids of the older messages merged into it.
#[derive(Debug, Clone, PartialEq, Eq)]
pub struct Gathering(usize, Vec<usize>);

impl Compactable for Gathering {
    type Key = usize;
    fn key_of(&self) -> usize {
        self.0
    }
    fn compaction_key(&self) -> usize {
        self.0
    }
    fn lemma_merged_keeps_key(_younger: Self, _older: Self) {}
    fn compact(&mut self, other: Self) {
        self.1.extend(other.1);
    }
}

fn g(key: usize, id: usize) -> Gathering {
    Gathering(key, vec![id])
}

#[test]
fn compaction_merges_dropped_messages_into_the_youngest_with_their_key() {
    let mut log = Inner::new(1, 2, 3);
    log.push(g(1, 1));
    log.push(g(2, 2));
    log.push(g(1, 3));
    assert_eq!(
        log.since(0),
        (3, vec![Gathering(1, vec![3, 1]), Gathering(2, vec![2])])
    );
}

#[test]
fn merges_come_oldest_first() {
    let mut log = Inner::new(0, 100, 100);
    log.push(g(1, 1));
    log.push(g(1, 2));
    log.push(g(2, 3));
    log.push(g(1, 4));
    log.compact();
    assert_eq!(
        log.since(0),
        (4, vec![Gathering(1, vec![4, 1, 2]), Gathering(2, vec![3])])
    );
}

#[test]
fn merging_into_the_retained_linear_part() {
    let mut log = Inner::new(2, 100, 100);
    log.push(g(1, 1));
    log.push(g(1, 2));
    log.push(g(1, 3));
    log.push(g(2, 4));
    log.compact();
    // m4 and m3 are retained; m1 and m2 are merged into m3, oldest first
    assert_eq!(
        log.since(0),
        (4, vec![Gathering(2, vec![4]), Gathering(1, vec![3, 1, 2])])
    );
}
