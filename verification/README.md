# cjson_rs

A JSON library whose behaviour is stated in Verus contracts and proved:
a parser that reports byte offsets in its errors, a compact and a
tab-formatted printer, a minifier, mutation of value trees, JSON Pointer,
JSON Patch (applying and generating), JSON Merge Patch (applying and
generating) and sorting of object members.

Numbers are held in a type chosen by the caller. Reading, writing and
comparing them are functions the caller passes in, so the library itself
holds no floating point; the command line tool in `app/` plugs in `f64`.

## Layout

- `src/value.rs` — values, their mathematical model (`JValue`), construction,
  lookup, copying and deep comparison.
- `src/parser.rs`, `src/printer.rs`, `src/minify.rs` — text in and out.
- `src/number_format.rs` — the text-only steps of writing a number (trimming
  a fraction's zeros, padding an exponent); the caller's writer does the rest.
- `src/mutate.rs` — adding, inserting, detaching, replacing and setting.
- `src/order.rs` — the stable name order of object members.
- `src/pointer.rs`, `src/patch.rs`, `src/diff.rs` — JSON Pointer and JSON Patch.
- `src/merge.rs` — JSON Merge Patch.
- `src/text.rs`, `src/names.rs` — characters, names and member lookup.
- `src/roundtrip.rs`, `src/trailing.rs`, `src/merge_law.rs`,
  `src/patch_law.rs` — proofs of properties that relate several operations
  or several inputs.
- `tests/` — tests on concrete values; `app/` — the command line tool.

## Properties proved

Besides each function's contract, the library proves, among others:

- printing a value and parsing the text gives the value back;
- `compare` is reflexive (on values that hold no invalid node), symmetric
  and transitive (where the number equality is);
- sorting an object's members is a stable sort;
- what an `add` places at a pointer is what a lookup of it then finds, and a
  `remove` takes out what a lookup finds;
- inserting then detaching, and replacing twice, give back the value
  they started from;
- the JSON Patch generated between two documents, applied to the first,
  gives a document equal to the second;
- the merge patch generated between two documents, merged into the first,
  gives a document equal to the second (names matched exactly);
- a pointer found to a value looks up to that value;
- minifying minified text changes nothing;
- a document followed by more than whitespace fails to parse where that
  text starts (unless it continues a number the document ends with).

Each holds on the inputs its proof function's `requires` names.
