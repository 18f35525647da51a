# protrust

A protobuf runtime library whose behaviour is stated in contracts and proved with Verus.

- `src/io`: wire types, field numbers, tags and lengths; the coded reader over a byte slice
  and the coded writer into one, which leaves the bytes it writes in the caller's slice;
  streams of bytes read and written one chunk at a time, and (`src/io/buffered.rs`) a reader
  that buffers what a stream gives it and a writer that buffers bytes for a stream.
- `src/raw.rs`: the value types (varints, zig-zag, fixed, bool, string, bytes, enum), with
  how each value is sized, written and read back.
- `src/collections`: repeated fields (packed and unpacked), map fields, and the set of
  unknown fields a message keeps.
- `src/extend.rs`: extension identifiers and the values of extension fields;
  `src/extend/set.rs`: registries of identifiers and the extension set of a message, which
  reads the fields its registry knows and merges those it already holds.
- `src/descriptor`: the messages of `descriptor.proto`. Each writes its fields in field-number
  order, and each comes with a proof that merging what it writes into a default message gives
  the message back, where its nested messages stay within the recursion limit and its unknown
  fields can be read back and hold no field the message knows.
- `src/reflect.rs`: the names of the descriptor messages.
- `app/`: implementations of the library's `Read` and `Write` stream traits over the standard
  library's readers and writers, so that files and sockets can be read and written through
  the buffered stream reader and writer.
