use rand::Rng;
use std::convert::TryFrom;
use syndicus::{Compactable, Publisher, Subscription, Syndicate};

#[derive(Debug, Clone, PartialEq, Eq)]
pub struct Message(usize, usize);

impl Compactable for Message {
    type Key = usize;
    fn key_of(&self) -> usize {
        self.0
    }
    fn compaction_key(&self) -> usize {
        self.key_of()
    }
    fn lemma_merged_keeps_key(_younger: Self, _older: Self) {}
    fn compact(&mut self, _other: Self) {}
}

#[derive(Debug, Clone, PartialEq, Eq)]
pub struct Temperature(i64);

#[derive(Debug, Clone, PartialEq, Eq)]
pub struct Voltage(i64);

#[derive(Debug, Clone, PartialEq, Eq)]
pub enum Reading {
    T(Temperature),
    V(Voltage),
}

impl Compactable for Reading {
    type Key = u8;
    fn key_of(&self) -> u8 {
        match self {
            Reading::T(_) => 0,
            Reading::V(_) => 1,
        }
    }
    fn compaction_key(&self) -> u8 {
        self.key_of()
    }
    fn lemma_merged_keeps_key(_younger: Self, _older: Self) {}
    fn compact(&mut self, _other: Self) {}
}

impl From<Temperature> for Reading {
    fn from(t: Temperature) -> Self {
        Reading::T(t)
    }
}

impl From<Voltage> for Reading {
    fn from(v: Voltage) -> Self {
        Reading::V(v)
    }
}

impl TryFrom<Reading> for Temperature {
    type Error = Reading;
    fn try_from(r: Reading) -> Result<Self, Reading> {
        match r {
            Reading::T(t) => Ok(t),
            other => Err(other),
        }
    }
}

impl TryFrom<Reading> for Voltage {
    type Error = Reading;
    fn try_from(r: Reading) -> Result<Self, Reading> {
        match r {
            Reading::V(v) => Ok(v),
            other => Err(other),
        }
    }
}

fn empty_log() -> Syndicate<Message> {
    let linear_min = 10;
    let linear_hi = 15;
    let linear_max = 20;
    Syndicate::new(linear_min, linear_hi, linear_max)
}

fn data() -> Vec<Message> {
    let key_space = 15;
    let run_length = 1007;
    let mut rng = rand::thread_rng();
    (1..=run_length)
        .map(|j| Message(rng.gen_range(0usize..key_space), j))
        .collect()
}

fn fill_log(p: &Publisher<Message, Message>, test_data: Vec<Message>) {
    for m in test_data {
        p.send(m);
    }
}

/// Everything the subscription delivers until it has caught up.
fn drain<A: Clone + TryInto<B>, B>(s: &mut Subscription<A, B>) -> Vec<B> {
    let mut out = Vec::new();
    loop {
        match s.next_buffered() {
            Some(b) => out.push(b),
            None => {
                s.refresh();
                match s.next_buffered() {
                    Some(b) => out.push(b),
                    None => return out,
                }
            }
        }
    }
}

#[test]
fn test_snapshot() {
    let l = empty_log();
    let p = l.publish::<Message>();
    let mut s = l.subscribe::<Message>();
    fill_log(&p, data());
    let (_, results) = l.snapshot(0);
    let pulled = drain(&mut s);
    assert_eq!(results, pulled);
}

#[test]
fn test_subscribe_at() {
    let l = empty_log();
    let p1 = l.publish::<Message>();
    let p2 = p1.clone();
    let mut test_data_a = data();
    let test_data_b = test_data_a.split_off(test_data_a.len() / 2);

    fill_log(&p1, test_data_a);
    let (offset, _) = l.snapshot(0);
    let mut s = l.subscribe_at::<Message>(offset);
    fill_log(&p2, test_data_b);
    let (_, results_b) = l.snapshot(offset);
    let pulled = drain(&mut s);
    assert_eq!(results_b, pulled);
}

#[test]
fn test_interleaved() {
    let l = empty_log();
    let p = l.publish::<Message>();
    let mut s = l.subscribe::<Message>();
    let test_data = data();
    let run_length = test_data.len();
    let mut count = 0;
    let mut prev = 0;
    for m in test_data {
        p.send(m);
        for Message(_, j) in drain(&mut s) {
            count += 1;
            assert!(j > prev, "Messages out of order {prev}, {j}");
            prev = j;
        }
    }
    // for interleaved operation we see every message (no compaction)
    assert_eq!(count, run_length, "Messages received/sent = {}/{}", count, run_length);
}

#[test]
fn test_compaction() {
    let l = empty_log();
    let p = l.publish::<Message>();
    let mut s = l.subscribe::<Message>();
    let test_data = data();
    let run_length = test_data.len();
    fill_log(&p, test_data);
    let mut count = 0;
    let mut prev = 0;
    for Message(_, j) in drain(&mut s) {
        count += 1;
        assert!(j > prev);
        prev = j;
    }
    assert!(
        count >= 15 && count < 35,
        "Messages received/sent = {}/{} expected 15..35",
        count,
        run_length
    );
}

#[test]
fn snapshot_of_empty_syndicate() {
    let l = empty_log();
    assert_eq!(l.snapshot(0), (0, vec![]));
    assert_eq!(l.snapshot(3), (3, vec![]));
}

#[test]
fn snapshot_is_oldest_first() {
    let l = Syndicate::new(10, 15, 20);
    let p = l.publish::<Message>();
    for j in 1..=5 {
        p.send(Message(j, j));
    }
    assert_eq!(
        l.snapshot(2),
        (5, vec![Message(3, 3), Message(4, 4), Message(5, 5)])
    );
}

#[test]
fn publisher_is_advised_to_yield_at_linear_hi() {
    let l: Syndicate<Message> = Syndicate::new(1, 2, 3);
    let p = l.publish::<Message>();
    assert!(!p.send(Message(1, 1)));
    assert!(p.send(Message(2, 2)));
    // the third message triggers compaction down to one message
    assert!(!p.send(Message(1, 3)));
}

#[test]
fn subscription_filters_by_type() {
    let l: Syndicate<Reading> = Syndicate::new(10, 15, 20);
    let temps = l.publish::<Temperature>();
    let volts = l.publish::<Voltage>();
    let mut st = l.subscribe::<Temperature>();
    let mut sv = l.subscribe::<Voltage>();
    temps.send(Temperature(20));
    volts.send(Voltage(230));
    temps.send(Temperature(21));
    assert_eq!(drain(&mut st), vec![Temperature(20), Temperature(21)]);
    assert_eq!(drain(&mut sv), vec![Voltage(230)]);
}

#[test]
fn subscription_at_current_offset_sees_only_later_messages() {
    let l: Syndicate<Reading> = Syndicate::new(10, 15, 20);
    let temps = l.publish::<Temperature>();
    temps.send(Temperature(1));
    temps.send(Temperature(2));
    let (offset, _) = l.snapshot(0);
    assert_eq!(offset, 2);
    let mut s = l.subscribe_at::<Temperature>(offset);
    assert_eq!(s.next_buffered(), None);
    temps.send(Temperature(3));
    assert_eq!(drain(&mut s), vec![Temperature(3)]);
}

#[test]
fn compaction_keeps_latest_of_each_type() {
    let l: Syndicate<Reading> = Syndicate::new(1, 2, 3);
    let temps = l.publish::<Temperature>();
    let volts = l.publish::<Voltage>();
    volts.send(Voltage(1));
    for t in 0..10 {
        temps.send(Temperature(t));
    }
    let (_, all) = l.snapshot(0);
    assert_eq!(all, vec![Reading::V(Voltage(1)), Reading::T(Temperature(9))]);
}

#[test]
fn shared_subscription_is_cloneable() {
    let l: Syndicate<Message> = Syndicate::new(10, 15, 20);
    let s = l.subscribe::<Message>().share();
    let t = s.clone();
    assert!(std::sync::Arc::ptr_eq(s.shared(), t.shared()));
}

#[test]
fn cloned_syndicate_shares_the_log() {
    let l: Syndicate<Message> = Syndicate::new(10, 15, 20);
    let k = l.clone();
    l.publish::<Message>().send(Message(1, 1));
    assert_eq!(k.snapshot(0), (1, vec![Message(1, 1)]));
}
