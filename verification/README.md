# bogobarf

A small publish/subscribe and remote-call framework for robots: clients
connect to a central server over TCP and exchange length-delimited packets,
each holding one CBOR-encoded message (`call`, `ret`, `pub`, `bye`).

- `src/` is the verified library:
  - `frame`: the framing of the byte stream (a four-byte big-endian length,
    then the payload);
  - `message`, `legacy`: the messages;
  - `client`: the client's bookkeeping of calls (by sequence number) and
    subscriptions, and what it does with each incoming message;
  - `server`: the server's clients, topics and subscriptions, and what it
    does with each incoming message: a call is answered once with its own
    number, a publication goes to every subscriber of its topic, `bye`
    closes the connection;
  - `topic_list`: the answer to `topic_list`, each topic name escaped and
    followed by a newline;
  - `keyed`, `error`: string-keyed entry lists and the error type.
- `app/` is the `bogobarf` command line (`serve`, `ping`, `list`, `echo`,
  `pub`): sockets, tasks, logging and the CBOR encoding of messages.
- `tests/` exercises the library on concrete values.

The server's answers: a call is answered once, with the call's own sequence
number; `register <name>` and `subscribe <topic>` answer `ok`, `topic_list`
answers every topic published on so far (each name with `\` written `\\`
and a newline written `\n`, then a newline), and any other call answers
`unknown call`. Publications, events and answers get no reply; `bye` ends
the connection's subscriptions and closes it.
