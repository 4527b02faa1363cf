# Latency Ladder

The piece of a trading system that turns raw exchange network traffic into a
correct picture of the market, written and proved in Verus.

```
receive    strip Ethernet / VLAN / IPv4 / UDP
sequence   detect gaps, hold what is early, take the first of two feeds
parse      decode the exchange's binary messages
book       rebuild who wants to buy and sell at what price
decide     a deliberately trivial strategy
encode     write an order back onto the wire
```

## Layout

`src/` is the verified library.

| module | what it holds |
|---|---|
| `iextp` | captures (pcap and pcapng), frames, segments, the sequencer; `iextp::arbitration` states what sequencing guarantees over a whole stream |
| `deep` | fixed-point prices, eight-byte symbols, message decoding |
| `book` | the book, and four ways of holding its price levels that agree with each other; `book::laws` states what updates leave alone and how they change what is counted |
| `pipeline` | the whole path, latency histograms, order encoding, the queue between two threads; `pipeline::laws` and `pipeline::reordering` state what the path guarantees |
| `synth` | a generator of captures whose market never crosses, with encoders for every layer and proofs that what they write reads back |
| `server` | what the demonstration server computes: decoding a recorded session, measuring the path, HTTP requests and replies |
| `bytes`, `text`, `tree`, `tally` | numbers in bytes, text, ordered maps and sums |

Proof functions named `law_*` are what the library states of itself, beyond the
contracts of single functions.

`app/` is the server around the library: sockets, threads, files and the clock.
It expects recorded sessions in `samples/` and a page in `static/index.html`, and
says which sessions are missing. Run with `threaded`, it hands frames to a second
thread instead, through a lock-free queue, and compares that with one thread.

`tests/` runs the library on concrete values.

## Numbers

Nothing in the library is floating point. Prices count ten-thousandths of a
dollar, and so do fractions: rates, loads and quantiles are in ten-thousandths.
Times are whole nanoseconds.
