# turbovec

Search in an index of quantized vectors, verified with Verus.

- `src/` is the verified library. `index` holds the index and the three entry
  points `reconstruct_db_i8_transposed`, `search_polyfill_with_db` and
  `search_polyfill`; `quantize`, `matrix` and `topk` are the steps they are made
  of; `binary32`, `rounding` and `order` are binary32 arithmetic on bit
  patterns; `laws` states what holds of the library as a whole, and `doubling`
  what it does to inputs on twice the scale.
- `app/` is the front end for native floats: it rotates and calibrates queries
  and converts numbers to and from their bit patterns.
- `tests/` runs the library, with native floats beside it.

Three functions are trusted rather than proved: `parallel::parallel_map`, which
hands work to rayon; `matrix::matmul_i8_to_i32`, which multiplies matrices with
ndarray; and the sort of integer pairs in `topk`, which is the standard
library's.
