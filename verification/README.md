# forward

An HTTP tunnel. A server with a public address takes HTTP connections over TLS and hands each of
them to the client that registered its host name. The client connects back to the server, and the
two connections are joined.

```bash
forward server --client 0.0.0.0:4431 --http 0.0.0.0:4430 --cert CERT --key KEY --secret SECRET
forward client --server a.foo.com:4431 --secret SECRET \
  --forward a.foo.com:127.0.0.1:8080 --forward b.foo.com:127.0.0.1:8081
```

## Layout

- `src/`: the logic, verified with Verus. It works on plain values: bytes that were read, commands
  that arrived, the outcome of a wait.
  - `frame`: messages on a stream of bytes.
  - `protocol`: the commands, their signatures and the numbers of requests.
  - `server`: finding the host name of a request (`host`), bringing requests and clients together
    (`coordinator`), what to do with a connection (`serve`), the answers (`response`), and the
    files of the server (`pem`).
  - `client`: the options (`options`) and what to do with a connection (`run`).
  - `util`: copying between two connections, waiting for the first of two things, errors.
  - `text`: text that is taken apart or put together.
  - `tunnel`: what the two sides achieve together.
- `app/`: the program around it: sockets, TLS, timers, signals, and the encoding of commands.
- `tests/`: tests of the library.

The statements about several operations at once are the public proof functions whose names begin
with `law_`. What the library takes on trust about other crates stands at the functions that call
them and at the types declared for them; each is marked `external_body`.
