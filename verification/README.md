# partitions

A partition-table reader, writer and editor, and a filesystem-magic sniffer,
over any random-access block source; verified with Verus.

Given a `BlockRead` (`read_at` and `size_bytes`), it tells whether there is a
GPT or an MBR, what partitions it describes and which of its own rules they
break, and what signature stands at the start of each. Given a `BlockDevice`,
it writes tables: from scratch, or from a `PartitionSet` that was probed,
edited and is put back with what it did not understand left as it was.

## Layout

    src/
      block.rs      BlockRead, BlockDevice, and a disk in memory
      codec.rs      little-endian fields
      crc.rs        the checksum, from crc32fast
      order.rs      the stable order of entries by start
      label.rs      partition names in UTF-16
      uuid.rs       version-4 UUIDs
      error.rs      errors and what they say
      gpt.rs        reading a GPT and its backup
      gpt_write.rs  writing one: geometry, plan, image, slots
      mbr.rs        reading and writing an MBR
      probe.rs      deciding which table a disk has
      sniff.rs      filesystem signatures
      mutation.rs   PartitionSet: add, remove, resize, commit
      capi.rs       what the C ABI answers, in plain values
      walk.rs       probe a disk, then look into each partition
    app/            fs_core devices, the C ABI, randomness
    tests/          scenarios

## What is proved

Every function says in its contract what it returns. On a device that serves
what it holds, that is one value for every input, but for how the device words
a read past its end. On one that may fail, a refusal that needs no read still
comes, and whatever else the function gives is either that value or a failure
of the device, handed on as it came. What a
device does is stated by the traits `BlockRead` and `BlockDevice`; it is
proved of the disk in memory and taken on trust of any other.

Beside the contracts stand laws that relate several functions, as public
proof functions:

- a GPT that was written is read back, from either copy, partition for
  partition (`gpt_write/round_trip.rs`), and as a set (`gpt_write/reload.rs`);
- so is an MBR (`mbr/round_trip.rs`);
- a commit that changed nothing keeps what was there
  (`gpt_write/unchanged.rs`, `gpt_write/hybrid.rs`, `mutation/committed.rs`);
- edits keep a set sound, and a sound set can be written
  (`mutation/sound.rs`);
- dropping the entries of a GPT that report an issue makes it committable,
  and a removal undoes an addition (`mutation/pruned.rs`);
- the two copies of a GPT agree exactly where they say the same entry by
  entry, in whatever order (`gpt/agreement.rs`);
- slots are given out once, and kept (`gpt_write/slots.rs`).

Two calls are trusted: `crc32fast::hash` to compute the CRC-32, and
`String::from_utf16_lossy` to decode UTF-16. `crc.rs` and `label.rs` say what
that means.
