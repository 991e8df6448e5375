# beatermp

A headless multiplayer host for BeaterCore, with its core verified by Verus.

BeaterCore has no dedicated server: whoever hosts runs the whole game. `beatermp`
speaks the game's UDP protocol instead. It shows up in the lobby as a player with
a stock car, lets clients join, ready up, race, chat, vote for tracks and visit
garages, and relays everything else between them. `beatermp-steam` lists such a
host in the in-game Server list and translates between it and the game's Steam
transport.

## Layout

`src/` is the library. It owns no socket, file or clock, and all of it is
verified but for what is listed under "What is taken on trust".

| module | what it holds |
|---|---|
| `le`, `bytes` | little-endian fields, and the cursor that reads them |
| `frame` | the datagram envelope: reliable, unreliable, ack, greeting |
| `event`, `player`, `messages` | event discriminants and payloads, twins of client events |
| `reassembly`, `link`, `link_laws` | chunking, acks, retransmits, and what they promise |
| `translate` | frames to and from Steam's messages |
| `track` | scene tables, picks, grid and parking poses |
| `text`, `datalog`, `error` | text operations, JSON log lines, error texts |
| `server` | the lobby and race state machine, one module per topic |
| `server::laws`, `server::race_laws`, `server::retry_laws`, `server::growth` | what the server promises |

Each type has a view, a plain mathematical value; each operation's contract says
which view it leaves behind. The files named `laws` and `growth` prove what
follows for more than one operation at a time.

`app/` is ordinary Rust: argument handling, sockets, the clock, data files, the
Steam client, the log, and what is floating point (poses in tables, rounding race
times).

`tests/` runs the library: whole sessions of a server and its clients, and wire
layouts byte by byte.

## What is taken on trust

Three standard library functions: `String::from_utf8`, `String::push`, and the
`Debug` form of a string, of which only is used that it depends on the string
alone. Floating-point fields are carried as their bits.

## Running

`beatermp` reads `maps.txt`, `parking.txt` and `garage_interior.txt` from its
working directory:

```sh
beatermp [--port 6237] [--name beatermp] [--map forest_long[:reverse][@3]]... [--laps 1] [--night] [--rain]
beatermp --list-maps
beatermp-steam [--port 6237] [--name NAME] [--friends-only] [--data-file PATH]
```

A table holds one block per scene variant: a line `name Variant count`, then that
many rows of seven numbers, rotation `x y z w` and position `x y z`.
