# pgreap

Finds `idle in transaction` and long-running connections on a live Postgres
server and, only with an explicit `--execute` flag, terminates them.

```bash
pgreap "postgres://postgres@localhost:5432/mydb"                       # dry run, default 60s idle-tx threshold
pgreap "postgres://postgres@localhost:5432/mydb" --idle-tx-seconds 300 # only flag ones idle 5+ minutes
pgreap "$DATABASE_URL" --query-seconds 600                             # also flag active queries running 10+ min
pgreap "$DATABASE_URL" --database billing --user batch_job             # narrow to one db/role
pgreap "$DATABASE_URL" --idle-tx-seconds 300 --execute                 # actually terminate the matches
```

`src/` decides and renders, and is verified with Verus:

- `criteria`: which backends are flagged, and why
- `run`: what a run does next, and what it reports in the end
- `report`: the text of the reports
- `clock`: durations as hours and minutes, minutes and seconds, or tenths
- `seconds`, `rounding`: binary64 numbers by their bit patterns, and how their
  arithmetic rounds
- `text`: decimal numbers and columns
- `db`: the poll that is sent to the server

`app/` parses the command line and talks to the server.
