# trackit

A small event tracker for the browser (tap a topic to record an event; counts
for today, the last seven days, the month and in all; import and export of
plain-text event lists) and a generator for tech-event announcements (chat,
e-mail and Mastodon texts).

`src/` is the verified library, checked with Verus:

- `templates` – the announcement texts, the input check and the character counter;
- `mastodon` – the Mastodon length rule (grapheme clusters, links count as 23);
- `counts` – topic headers, events and the per-period counts;
- `events` – newest-first order, paging, deletion and the selection of imported events;
- `export` – the timestamp order and the text of an exported topic;
- `time` – date and time texts, identifiers, the counting periods, the import line format;
- `query` – the `add` parameter of the page address;
- `gestures` – the swipe decisions of the touch screens;
- `digits`, `text` – decimal numbers, white space and characters.

`app/` holds the Leptos views, IndexedDB, the browser clock
and the GPS fix. `tests/` runs the library on concrete values.
