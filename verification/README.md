# holon

Typed messages, Arrow batches and versioned artifacts over shared chunks of
memory, with their behaviour stated in contracts and proved.

## Layout

- `src/` is the library.
  - `chunk`, `le`: descriptors, packed references, little-endian fields.
  - `artifact`: the pool and its reference counts, manifests and their chains,
    the head with its version slots and fenced write lease, commits (replace,
    append, window) in one step or in two with a journal between them, pins,
    journals, eviction, and the rows of a version. `laws`, `census`, `handshake`
    and `round_trip` hold what is true across operations.
  - `batch`: how a batch is laid out in chunks, packed, located and read back;
    interned schemas. `outside` is the only place that calls the Arrow crates.
    Locating a batch and looking at its bytes (`read`) copies nothing. Rows
    (`rows`) are Arrow arrays, and those hold copies: an Arrow buffer over memory
    that it does not own takes unsafe code.
  - `message`: the 64-byte envelope, payloads, dispatch tables.
  - `actor`: messages in chunks, routing, asks and their answers. `exchange`
    follows a message all the way.
  - `demo`, `spike`, `bench`, `text`: the decisions of the programs in `app/`.
- `tests/` runs the library, with the real Arrow crates.
- `app/` is ordinary Rust around it: a pricing demo, a task round trip and
  measurements. It does the I/O, the clocks, the processes and the floating
  point.

## Model

A chunk pool, a head and a journal are plain values here, and an operation takes
the ones it changes by `&mut`. Orders in which two parties' single steps can be
mixed are the subject of `artifact::handshake`.

What a type is in contracts is its view. `ChunkPool::wf` says that every
reference count is exact: what the slots, the manifests and the callers hold adds
up. `artifact::live::live` ties a head to its pool.
