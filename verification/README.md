# phone_detector

Finds phone numbers in free text: international numbers written with `+`,
formatted domestic and toll-free numbers, plain runs of ten or eleven digits
and space-separated mobile numbers. The library is written in Verus and its
behaviour is stated in `requires`/`ensures` contracts that Verus proves.

Layout:

- `src/` — the verified library.
  - `scan_spec.rs` states, over the bytes of a text, which numbers the scanner
    finds (`extract_spec`) and when a text holds one (`contains_spec`).
  - `scanner.rs` implements `PhoneScanner::contains` and `PhoneScanner::extract`
    and proves them against those statements; `service.rs` adds counters and a
    factory.
  - `scan_props.rs`, `digit_bounds.rs`, `shift.rs` and `laws.rs` prove what
    every reported number satisfies: it is read from the text, has seven to
    fifteen digits, is at most thirty characters long, is accepted by the
    validator of its kind, and the reported numbers are ordered, disjoint and
    distinct; a byte put in front of the text that cannot belong to a number
    moves every number one position on.
  - `limiter.rs` also proves that steps reach the limiter in whole batches.
  - `validators.rs`, `classifier.rs`, `limiter.rs`, `counters.rs`,
    `safe_arithmetic.rs`, `text.rs` and `types.rs` hold the smaller parts.
- `tests/` — tests run against the compiled library.

Design notes:

- Byte classes are decided by direct comparisons stated in `classifier.rs`
  rather than by a 256-entry table built by a `const fn`; the library holds no
  `const fn`, and the comparisons are the classes' own definition.
- Repeated numbers are removed with a list of the digit strings already kept,
  and matches are ordered by a stable insertion sort written in the library.
  Verus gives no specification for sorting a slice by key, and the one it
  gives `HashSet` says nothing usable about `String` keys, so both are written
  as verified loops. They are quadratic in the number of matches (at most
  10,000 per text).
- Counters are plain integers changed through `&mut self`. Verus's
  specifications of the standard atomics state nothing about the values they
  return, and `RwLock` has none, so the counters are not atomics; a service
  shared between threads must be wrapped in a lock by its user
  (`create_shared_scanner_service` gives an `Arc` through which only the
  statistics can be read).
- `app/` — a command-line demonstration and a multi-threaded benchmark.
