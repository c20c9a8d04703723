# antigravity_cli

Reads usage snapshots of the Antigravity command line tool (`agy`) from the server
that the tool runs on the loopback interface.

The library, under `src/`, holds the rules and formats, each with a contract that Verus
proves. It performs no input or output: a caller hands it bytes and answers, and does
what the returned step asks for. Of the system it asks only where the home directory is.
What files, sockets, processes and the terminal need is under `app/`.

| module    | what it holds                                                           |
|-----------|-------------------------------------------------------------------------|
| `text`    | white space, lines, words, searching in texts                           |
| `number`  | reading and writing numbers                                             |
| `stream`  | bytes as they arrive, and the lines that frame a reply                  |
| `body`    | bodies: with a length, in chunks, or up to the end of the stream        |
| `chunked` | that a text sent in chunks is read back                                 |
| `http`    | requests, status line, headers, and the reader of a whole reply         |
| `reply`   | that a reply that was sent is read back                                 |
| `head`    | that a status line and headers that were written are read back           |
| `logs`    | which log files to scan, and which port and process a log announces     |
| `scan`    | the search through the logs for servers that are up                     |
| `json`    | JSON documents                                                          |
| `usage`   | snapshots, and how a status document gives one                          |
| `fetch`   | whom to ask for a snapshot, how long to wait, and what to print         |
| `report`  | the report that shows a snapshot                                        |
| `paths`   | where the tool keeps its files                                          |
| `process` | the rules for the process of a temporary server                         |
