# Steam Deck File Transfer

A small, local-only file transfer for sending files and folders from a PC to a
Steam Deck. There is no cloud service, no account and no database. The files
are sent in bounded chunks over TCP, verified with BLAKE3, resumed where an
earlier transfer broke off, and get their final names only when they are
complete. Existing files are kept.

The logic is a Verus library. Every function of it is verified, except nine small
wrappers in `src/digest.rs` and `src/text.rs`: each makes one call into `blake3` or
the standard library, and its contract is believed without proof.

- `src/path.rs`, `src/order.rs`: transfer paths that cannot leave the receive
  directory, and their order.
- `src/protocol/`: the wire protocol. What is written is read back, and nothing
  is read beyond its limits.
- `src/receiver/`: the receiver's session, and where its files go. Whatever a
  sender does, only files with the offered size and digest get final names, and
  the files that were there before stay as they were. No file is accepted into
  `.sdft-partials`, the directory of the partial files. A file that does not have
  the offered digest stays in its partial file, beside a mark, and is sent again
  as a whole.
- `src/sender/`: the list of files that are sent, and the sender's session.
- `src/transfer.rs`: both sides together. A transfer of files that can be offered
  never fails, ends after finitely many moves, and leaves the receiver with the
  contents of the files.
- `src/progress.rs`, `src/cli.rs`: what the user sees and says.
- `src/digest.rs`, `src/text.rs`: digests and text, with the nine wrappers on
  which the proofs rest.
- `app/`: the two applications. They connect the sessions with sockets, files and
  windows. Started as `sdft-deck` the program receives, as `sdft-pc` it sends.

```text
sdft-deck --listen 0.0.0.0:49321 --output /home/deck/Downloads/SteamDeckFileTransfer
sdft-pc --host 192.168.1.42:49321 FILE-OR-FOLDER...
```

Traffic is not encrypted. Use the program only on a trusted private network, and
do not forward its TCP port on a router.
