# chat

A small multi-user chat over TCP: a server that asks every client for an
access token, passes messages between authenticated clients, and strikes and
bans clients that send too fast or send text that is not UTF-8; and a terminal
client.

- `src/` is the verified library: the frame format (`protocol`), the server's
  rules (`server`), the access token (`token`), and the client's input
  handling and text wrapping (`ui`).
- `app/` is the program around it: sockets, threads, the terminal and the
  drawing. Run it without arguments for the server, or with the server's
  address for the client.
- `tests/` runs the library on concrete values.
