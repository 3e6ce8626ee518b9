# tiny_tokio_actor

A small actor system on tokio. The decisions it makes are verified with Verus
in `src/`; the asynchronous plumbing lives in `app/`.

- `src/actor/path.rs`: actor paths (`/user/parent/child`): parsing, writing
  out, joining, ancestry and the order of paths, with their laws (a written
  path parses back to itself; the order is a strict total order).
- `src/system.rs`: the registry of running actors of a system: registering
  (refused where an actor already runs), looking up, removing, and stopping an
  actor together with everything below it, in descending order of paths,
  handing back the stopped entries so that each actor can be told to stop.
- `src/actor/lifecycle.rs`: the lifecycle of the task that runs an actor:
  `pre_start`, restarts within the retry budget after failed starts, then
  messages until the mailbox closes, the actor is told to stop, or it times
  out, then `post_stop`;
  an actor that gave up or timed out is taken off its system.
- `src/bus.rs`: the event bus, a tokio broadcast channel behind trusted
  wrappers.
- `app/`: actors as tokio tasks with unbounded mailboxes, `tell` and `ask`,
  the `Actor` and `Handler` traits, supervision strategies, and the
  `ActorSystem` that holds the
  registry behind a tokio `RwLock`.
