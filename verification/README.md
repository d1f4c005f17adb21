# beb-courier

Carries beb's mail between machines. beb owns no network: what it cannot
deliver waits in an outbox, and the filename says who it is for, so a courier
moves it without opening an envelope.

`src/` is the library: what the courier decides, with its contracts, proved by
Verus. `app/` is the program around it: the environment, files, processes, the
clock, and the loops that carry the decisions out.

| | |
|---|---|
| `text`, `number`, `order`, `compose`, `append` | text as it is read, put together and added to a file |
| `fail`, `report` | how a command ends, and what it prints |
| `place`, `routes`, `table`, `table_laws` | where mail goes: reading the table, listing it, adding and removing |
| `handover`, `authorize`, `init` | what two machines hand each other, and letting a peer in |
| `register` | saying at a depot whom this machine collects for |
| `outbox`, `push`, `held` | outbound: one pass, frame by frame, and the waits of places that are down |
| `drain` | inbound: one connection, frame by frame |
| `sync`, `carry` | both directions, once and until stopped |
| `ssh`, `paths` | how a place is reached, and where things are kept |
| `status`, `unit`, `command` | whether this machine can carry, the supervisor's file, and what is asked |

A frame leaves the outbox only once the far side has it, and is acknowledged
only once beb has it: `law_a_frame_leaves_only_when_taken` in `push` and
`law_a_frame_is_acknowledged_only_when_taken` in `drain`. The other functions
whose names begin with `law_` say what else holds of the whole.
