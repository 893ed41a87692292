# netto

A menu bar monitor for network latency: is the internet up, is the router up,
and is each of the services one relies on answering?

`src/` is a Verus library with everything the monitor decides and computes:

- `text`, `numeral`, `fraction`: strings, decimal numerals, exact fractions;
- `double`: the double-precision numbers that latencies and losses are shown as;
- `address`: what is told from the text of an address;
- `netinfo`: what the system's tools print of the network;
- `ping`: the probed hosts, their tasks and their recent results;
- `sparkline`: time slots, their scores, and the best of several rows;
- `settings`, `preferences`: what is stored, and the window that edits it;
- `menu`, `titles`: what the menu consists of, and what it says.

Times are nanoseconds, and scores are exact fractions between 0 and 1.

`app/` is the macOS program around it: AppKit, sockets, the system's tools and
the user defaults. `tests/` run the library.
