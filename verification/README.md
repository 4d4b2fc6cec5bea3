# edge_scan

Two network scanners. `edge` draws addresses from Cloudflare's published ranges,
tests the short ones and lists the long ones. `proxies` checks a list of proxies
and writes a Markdown report of the ones that work.

`src/` is the library: everything that is computed and decided, with contracts
that Verus proves. `app/` is the program around it: connections, files, arguments
and the clock of the request. `tests/` runs the library on concrete values.

| module | what it holds |
| --- | --- |
| `text`, `number` | splitting, trimming and searching text; numbers in base ten and sixteen |
| `address`, `cidr` | addresses and blocks of addresses, read and written |
| `candidates`, `distinct`, `chance` | the addresses that are drawn from blocks |
| `response`, `ranges` | the replies of edge servers and of the service that publishes the ranges |
| `record`, `clock` | the records that are written, and the time in Tehran |
| `proxy_list` | the proxies that are to be checked |
| `meta`, `validation`, `scan` | the two checks of a proxy, and how they end |
| `table`, `country`, `report` | the proxies that passed, by country, and their report |
