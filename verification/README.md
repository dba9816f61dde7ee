# market_making

A market-making bot for the Kraken exchange that quotes around the mid price with the
Guéant–Lehalle–Fernandez-Tapia (GLFT) model:

    bid_price = fair_price - (half_spread + skew * q)
    ask_price = fair_price + (half_spread - skew * q)

The library under `src/` holds the bot's bookkeeping and protocol logic, each function
with a contract and its proof:

- `decimal` — exchange decimals as `(mantissa, scale)` and the exact, order-preserving key by
  which prices are sorted;
- `json` — JSON values as the feed delivers them, and `[price, volume]` levels read from them;
- `book` — one pair's order book: snapshots, incremental updates, and each side cut to the
  best `depth` levels;
- `feed` — what each message of the book channel says, and the books of all pairs it keeps;
- `intensity` — the arrival counts behind the trading-intensity calibration, and its schedule;
- `kraken` — signed order requests (SHA-256, HMAC-SHA-512, base64) and client order ids.

`app/` is the program around it: configuration, the WebSocket and HTTP connections, and the
floating-point model (calibration by linear regression, volatility, quote coefficients).
`tests/` exercises the library.
