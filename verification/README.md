# nostd_async

The queues behind a small `no_std` async executor, verified with Verus.

- `src/linked_list.rs`: a doubly linked queue of numbered nodes. Its
  operations (`insert_front`, `insert_back`, `remove`, `is_in_queue`,
  `get_first`, `with_first`) are specified over the sequence of queued node
  numbers, and keep the links of every node in agreement with that sequence.
- `src/sync/mpmc.rs`: the state of a rendezvous channel for many senders and
  many receivers. Each step (`send`, `receive`, `poll_send`, `poll_receive`,
  `drop_send`, `drop_receive`) says how the two queues change and which waker
  is to be woken. Handles carry the number of their operation and the
  identity of their buffer; numbers of dropped operations are reused.
- `app/`: the futures (`Send`, `Receive`), the `Sender` and `Receiver`
  handles, and the critical section (`interrupt::free`) that the steps run in.
