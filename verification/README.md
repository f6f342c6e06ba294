# mx-task

Aggregates a CSV stream of executed trades into minute bars, hourly averages and
totals. The library is written in Verus: what each function computes is stated
in its contract and proved. The program around it reads and writes.

## Input

One trade per line, `symbol,timestamp,price,volume,side`, with an optional header
of these names. A timestamp reads `YYYY-MM-DDThh:mm:ss`, with or without a
fraction of a second. Lines may end with LF or CRLF; empty lines are passed over.
For each symbol the trades come in order of time. The first line that cannot be
read, or that is out of order, ends the run with an error.

## Output

```
MINUTE,{date},{symbol},{start},{end},{open},{high},{low},{close},{volume},{RSI(14)}
HOUR,{date},{symbol},{start},{end},{VWAP},{TWAP}
SUMMARY,TOTAL_VOLUME,{total volume}
SUMMARY,TOTAL_TRADED_VALUE,{total traded value}
```

The RSI column stays empty until fourteen price changes between minute closes have
been gathered. For the TWAP a price counts for as long as it was the last one,
into later hours of the same date too.

## Running

```
mx-task [INPUT [OUTPUT]]
```

Without `INPUT` the trades come from standard input. With `OUTPUT` the lines are
appended to that file instead of going to standard output.

## Layout

- `src/parse.rs`, `src/split.rs`, `src/decimal.rs`, `src/utf8.rs`: reading a row.
- `src/clock.rs`, `src/record.rs`, `src/error.rs`: dates and times, what is put
  out, and why a line is refused.
- `src/minute.rs`, `src/hour.rs`, `src/summary.rs`, `src/rsi.rs`: what is
  accumulated.
- `src/symbol.rs`, `src/steady.rs`: the state of one symbol, and what always holds
  of it.
- `src/order.rs`, `src/table.rs`, `src/agg.rs`: all symbols together.
- `src/stream.rs`: from chunks of bytes to lines.
- `src/weighing.rs`, `src/history.rs`, `src/balance.rs`, `src/closes.rs`,
  `src/whole.rs`, `src/calls.rs`, `src/wording.rs`, `src/columns.rs`:
  what holds of whole inputs and outputs.
- `app/`: files, standard streams, and the averages, which are floating-point.

The library keeps the averages as integers: for an hour the traded value, the
volume and the area under the price, and for the index the schedule of its
steps. What is taken on trust is `String::push` and `std::str::from_utf8` of the
standard library.
