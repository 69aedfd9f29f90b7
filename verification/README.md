# csv_records

Splits a stream of CSV bytes into chunks that end at record ends, so that threads can
work on them side by side. The library in `src/` is verified with Verus:

- `finite_automata`: the automaton, the scan of one record, and the search for a record
  end from anywhere in a file;
- `csv_bytes`: how a buffer is cut into chunks, and what is kept between reads;
- `byte_search`: the search for a byte, which `memchr` does;
- `automata_laws`, `search_laws`, `written_records`, `chunk_laws`, `stream_laws`: what
  holds of them, as proof functions.

`app/` reads files, and hands the chunks to threads over a channel.
