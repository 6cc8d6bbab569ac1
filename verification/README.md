# ringdl

The core of a multi-connection HTTP downloader for Linux, written and proved in
Verus, and a program around it that drives `io_uring`, `splice(2)` and kernel TLS.

Payload goes from each socket through a kernel pipe into the file without passing
through user space. The library decides which operation comes next; the program
performs it and reports how it went.

The two ends of a pipe are served independently of each other. A pipe holds at most
16 MiB, and payload leaves it for the file once 1 MiB has gathered in it or nothing
more will come.

## Layout

- `src/`: the verified library.
  - `request`: the target URL, the request texts, the default file name.
  - `http`: response heads and the size of the resource.
  - `plan`: the division of the resource among connections.
  - `token`: the numbers that tie a completion to its operation.
  - `connection`: the state of one connection and the moves it asks for.
  - `engine`: a whole download, as an answer to each completion.
  - `guarantees`: what holds of the books of every download, as proved laws.
  - `delivery`: that the finished file is the resource, byte for byte.
  - `retries`: that an operation which the kernel puts off leaves no trace.
  - `net`, `pipe`, `storage`, `cli`: the smaller decisions around these.
  - `text`: decimal numbers, trimming, searching and comparing.
- `tests/`: its tests, among them whole downloads against a simulated kernel.
- `app/`: the program.

## Options

- `url`: the HTTP or HTTPS URL to download.
- `-x, --connections <N>`: concurrent range connections (default 16).
- `-o, --output <PATH>`: the output file.
- `--buf-size <BYTES>`: the most that one splice may carry (default 1048576).
- `--ring-entries <N>`: entries of the submission and of the completion ring (default 128).
