# soroban_notify

Decisions behind the notifications about Soroban contract events, written in Verus:
every function of the library states what holds of its result, and is proved to keep
to it. Where the result comes from a clock or a mail library, it states which call was
made on what, and what follows from each answer.

- `src/` is the library. Content filters (`content_filter`, with `path`, `json`,
  `double` and `text`), rate limits (`notification_rate_limit`) and the e-mail channel
  (`notifier`, `digest`, `email`, `message`; `csv` shows that event lists read back).
- `tests/` runs it on concrete values, with `regex`, `serde_json`, `sha2`, `lettre` and
  `governor` linked.
- `app/` is the service around it: filters in JSON, reading numbers, the database, the
  mail server and the clock.

What the outside crates do is claimed, not proved: each function marked
`external_body` says in its comment which call it makes and what it claims of it.
