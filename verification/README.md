# mkfs

Builds the image of a small Unix file system that holds a list of files in its
root directory. The image is a sequence of 512-byte blocks: boot block,
superblock, log, inode table, free-block bitmap, data blocks.

- `src/layout.rs`: where everything lies.
- `src/bytes.rs`: little-endian numbers inside blocks.
- `src/inode.rs`, `src/dirent.rs`: the records stored in blocks.
- `src/image.rs`: the image in memory and the operations on it, each with its
  exact effect on the abstract image.
- `src/make.rs`: formatting, adding files, sealing, and all of it in one call.
- `src/sound.rs`: what makes an image a sound file system.
- `src/append.rs`, `src/stopped.rs`, `src/placed.rs`, `src/parts.rs`,
  `src/create.rs`, `src/complete.rs`: what the operations do to the files of a
  sound image, up to a complete image.
- `app/main.rs`: the command-line program, which reads the files and writes the
  image.
