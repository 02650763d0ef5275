# rusty-torrents

A torrent client. The library under `src/` holds what the client decides and
computes. Every function there has a contract, and Verus proves it. The program
under `app/` does the input and output around it.

- `bencode` and `parser` read torrent files and the answers of trackers.
- `engine` is the client whose peers are tasks that talk to it over channels: the
  pieces and where they lie in the files, the state of each peer, its messages,
  and the trackers.
- `client` is the client whose peers share what is known of the torrent.
- `ui` is the state of the screen and the rows that it shows.
- `address`, `bits`, `dictionary`, `hashing`, `scan`, `text`, `url` and `wire` are
  what the others are built on. Calls into other crates stand in `hashing`,
  `text`, `url`, `wire`, `ui` and `client::random`, each with what is taken for
  granted of it.

Inputs on which a function could not go on are left out by its precondition. Where
that is more than a bound on an argument, there is a function next to it whose name
begins with `try_`, `can_` or `is_` and which tests the input first.

`app/main.rs` takes the path of a torrent file and, if wanted, the directory that
the files go to. With `--shared` it runs `client` in place of `engine`.
