# syndicus

Publish/subscribe within a process, using types for topics and compaction
to control backlog.

- `src/log.rs`: the compacting log (`Inner`), its mathematical model
  (`LogView`) and the verified operations `since`, `push`, `compact`;
  compaction merges each dropped message into the youngest retained message
  with its key (`Compactable::compact`).
- `src/history.rs`: what a log holds after any sequence of pushes: publication
  order, the last `linear_min` messages, the latest message of each key,
  bounded space, and no loss for subscribers that keep up.
- `src/syndicate.rs`: `Syndicate`, `Publisher`, `Subscription` and
  `SharedSubscription` over a tokio `watch` channel.
- `src/scope.rs`: the decisions of a scope that joins the tasks spawned in it.
- `app/`: the asynchronous methods (`pull`, `push`) and `scope` itself, which
  await tokio futures between the library's decisions.
