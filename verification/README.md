# caj2pdf_core

Bounded PDF assembly, verified with Verus. The library builds new documents from
images, appends outlines to existing PDFs, and rebuilds PDFs from indexed
objects. It holds no whole document in memory and performs no input or output:
it says which bytes to read, checks what a reader found in them, and queues the
bytes to write.

- `src/document/` builds a document page by page: images, a page tree of three
  levels, and an outline that is written as its entries arrive.
- `src/append/` copies an inspected PDF, with the corrections that it needs, and
  appends an outline as an incremental update.
- `src/fragment/` checks indirect objects and their page tree, settles the whole
  file before its first byte, and then emits it in bounded steps.
- `src/outline.rs` and `src/outline_order.rs` hold what outlines share: the links
  of a list of depths, and when an entry is complete.
- `src/writer.rs` writes numbered objects and the cross-reference table.
- `app/` drives the library over asynchronous sources and sinks.
- `tests/` drives it over memory.

A function's contract names every error with the inputs that give it and, where
the function succeeds, the exact bytes that it writes. Memory is the exception: a reservation within the
limits may still be refused by the allocator, and contracts say what holds then.
Functions whose name begins with `law_` state what holds across several of them.
What alternates with input and output is handed out in steps, and laws state that
driving the steps ends with the whole file written.

What is not proved is confined to four calls into the standard library, each in a
function marked `external_body`: `Vec::try_reserve_exact`, `Vec::capacity`,
`String::capacity`, and `slice::sort_unstable_by_key`.
