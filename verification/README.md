# Pantograph

Channels for sending payloads across threads, where both sides of each channel are wait-free:
operations complete in a bounded number of steps, whatever other threads do. The channels are
verified with Verus.

| Channel | What it does |
| --- | --- |
| `watch::lending::accumulate` | The sender accumulates into a value until the receiver takes out the previous one. |
| `watch::lending::swap` | The receiver receives the latest value set by the sender. |
| `bounded::lending::accumulate` | The sender publishes values as long as there is room. |
| `bounded::lending::overwrite` | The sender publishes values as quickly as it wants, and overwrites unread ones. |
| `bounded::moving::queue` | The sender publishes values as long as there is room, and gives them away. |

## Layout

- `src/cell.rs`: the memory that both sides of a channel can reach, and the log in which each side
  records what it does to it. The library's trust in the standard library and `crossbeam-utils` is
  all here.
- `src/counter.rs`: sequence counters that wrap around, and the slots that positions fall on.
- `src/protocol/`: for each channel, which accesses to shared memory each side makes, and what
  follows for the two sides together, however they interleave.
- `src/bounded/`, `src/watch/`, `src/wf_wf/`: the channels.
