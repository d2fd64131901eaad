# profibus_dp_sim

A verified PROFIBUS-DP telegram toolkit.

- `src/telegram.rs` builds SD1, SD2 and SD4 telegrams and their frame check
  sequence (FCS), and prints them as text.
- `src/parser.rs` recovers telegrams from a raw byte stream, one byte at a
  time. `parse_stream` states which telegrams a stream holds; `Parser::push`
  is proved to return exactly those, and the laws around it (incremental
  parsing, well-formed frames parse back, noise is skipped, found telegrams
  are well-formed, frames are reported on their last byte) are proved there.
- `src/byte_stream.rs` turns a list of telegrams into a byte stream, and into
  a timed byte stream at a given baud rate (times in nanoseconds).
- `app/main.rs` prints a sample FCS and two telegrams.
