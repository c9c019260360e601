# squashfs

Reading squashfs archives, verified with Verus.

- `src/` is the library: the superblock and its checks, the compressor an archive
  names and block decoding, metadata blocks and a reader that streams them, inodes,
  and directory listings, each decoded from the bytes of an archive image and
  specified by a spec function over those bytes.
- `app/` connects the library to `std::io`: archive images come from readers, a
  metadata reader is offered as a `Read`, and whole compressed streams get streaming
  decoders.
- `tests/` exercises the library on hand-built images.
