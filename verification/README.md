# bft_engine

A Byzantine fault tolerant consensus engine with a log-structured key-value
store. The library under `src/` is verified with Verus; the program under
`app/` moves bytes, tells the time and draws random numbers for it.

## How the library works

The library does no input or output. It turns events into decisions, and the
program around it carries them out:

- `engine::ConsensusEngine` takes wire messages, client requests and timeouts,
  and returns actions: messages to send, pairs to store, clients to answer.
  `protocol` states the same as a state machine, and every method of the engine
  is proved to do what it says. `safety` holds the laws of that state machine,
  and `agreement` the one that it is for: no two nodes commit different values
  for a sequence number.
- `storage::StorageEngine` hands out the bytes of log records and table files.
  A write takes effect once the caller reports that its record is in the log; a
  read that memory does not answer asks for one table after the other.
  `durability` holds the laws of reads, flushes, compaction and recovery.
- `codec` states the binary encoding; `encode` and `decode` implement it, and
  `roundtrip` proves that decoding inverts encoding.

## How nodes agree

A node votes for one block in each slot, that is, for each view and sequence
number. What it has voted for at a sequence number it does not give up: in later
views it votes for the same operations only, and proposes them again where it
leads. A commit is taken from the leader of its view only, with the signed votes
of a quorum, and each sequence number is applied once. Any two quorums of a
cluster of 3f + 1 nodes share a node that is not faulty, so whatever a quorum
commits at a sequence number, in whatever view, is the same everywhere. The proof
rests on signatures that nobody forges and on block hashes that tell blocks apart.

Agreement comes before progress. With one round of votes a node cannot tell
whether what it voted for in an earlier view was committed there, so it has to
stay with it. Where proposals of different views are lost in such a way that no
quorum has voted for the same operations, say two of four nodes for some and two
for others, that sequence number stays open for good, without any faulty node. A
second round of votes, or requests for a view that carry votes, would be needed
to go on from there.

## What is trusted

Integers, byte strings and text are encoded by `bincode`, checksums come from
`crc32fast`, signatures from `ed25519-dalek`, and the headers of frames from
`bytes`. The calls stand in small functions whose contracts are believed:
`codec::bincode_*`, `wal::crc32_hash`, `crypto::dalek_*`, `network::bytes_*` and
`text::utf8_text`. Everything else is proved.

## Running it

`bft node` runs a whole cluster in one process, on a simulated network that may
lose, delay and duplicate messages. `bft put`, `bft get` and `bft bench` talk to
a node over TCP.
