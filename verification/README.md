# sp_matmul_rs

Sparse matrix multiplication (CSR × CSR) followed by top-n selection, with the
selection fused into the multiplication: only the best *n* values per output row
are ever kept. The default driver cuts the columns of `B` into chunks sized to the
L1 data cache, and the rows of `A` can be spread over threads.

The library is verified with [Verus](https://github.com/verus-lang/verus): every
function under `src/` that computes carries a contract, and the contracts are proved.

## What is proved

The rows of a result are stated as mathematics, in `topn` (top-n product),
`matmul` (plain product) and `zip` (chunk results side by side); every driver
(row by row, blocked, tiled, parallel) is proved to return exactly those rows, or
the index-overflow error where the index type cannot hold them. On top of that,
`laws`, `agreement`, `merge`, `split` and `pushes` prove what holds as a whole:

- each row is a choice of the `top_n` largest sums above the threshold, or of all
  sums that compare where there is none, in column order or the largest first;
- the sort modes choose the same entries where no tie stands at the top-n boundary;
- two calls that ask for the same entries agree at any chunk widths: same row
  pointers, same values up to ties, same entries where no tie stands at the boundary;
- at one chunk width the thread count, projection, row blocks and tiling change
  nothing, bit for bit;
- with room for every column and no threshold the top-n product holds the entries
  of the plain one. This is for sums that compare, element types that do not fuse
  multiply-add, and rows without the dense accumulator, which drops exact zeros. For
  other rows it holds of the shortcut alone: one thread and column order take the
  plain product as it is, sorted by column, so there a thread count above one can
  change the rounding of floats and the zeros that are kept;
- zipping per-chunk top-n results gives a top-n choice of the whole; where the
  chunks come from slices of the columns of one `B`, the outcome agrees with the
  top-n product with `B`, for sums above the threshold that zipping has; zipping
  again changes nothing but the places of ties;
- after guarded pushes to the heap its root is the smallest of the largest, and it
  never decreases;
- results are valid CSR matrices; integer entries are exact dot products where
  nothing overflows.

Entries are counted in a `u32` per row, so the statements about choices are for a
`top_n` or a number of columns that fits one.

Element types are described by the `Scalar` trait, whose few laws hold of floating
point as well as of integers. `i32` and `i64` are implemented and proved in the
library; the float types live in `app/`.

## Layout

| Module                            | Responsibility                                         |
|-----------------------------------|--------------------------------------------------------|
| `scalar`, `index`                 | element and index types                                |
| `csr`                             | borrowed views, owned matrices, errors                 |
| `product`                         | the updates that make up a row, and their sums         |
| `maxheap`, `selection`, `pushes`  | bounded heap, and why it keeps the top n               |
| `sorting`, `permutation`          | stable sorting                                         |
| `matmul`                          | plain product                                          |
| `topn`                            | what a top-n row is                                    |
| `scatter`, `drain`                | inner loops of the chunked kernel                      |
| `chunked`, `blocked`, `tiled`     | column-chunked drivers                                 |
| `parallel`                        | row-parallel driver on a rayon pool                    |
| `matmul_topn`                     | entry point of the top-n product                       |
| `zip`, `merge`, `split`           | merging the results of column chunks                   |
| `simd`                            | choice of the floating-point kernels                   |
| `bindings`                        | what the array bindings decide                         |
| `laws`, `agreement`               | what holds of the products as a whole                  |

`app/` holds the checked entry points for unverified callers, the float element
types, cache and CPU detection, the pool cache and the Python bindings.
