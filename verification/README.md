# solang

The front end of a Solidity compiler for Substrate, ewasm and Sabre, written
in Verus: the resolver that turns a parsed source unit into contracts
(enums, structs, state variables, function declarations and overloads, and a
control flow graph for each function body), the text form of those graphs,
and the Substrate ABI metadata of a contract.

Every function in `src/` carries a contract that Verus proves; the outside
crates it calls (`num-bigint`, `tiny-keccak`, `hex`, `unescape`) are reached
through a few small wrappers whose contracts state what those crates document.

Layout:

- `src/ast.rs` – the parse tree the resolver reads.
- `src/resolver/` – declarations (`functions.rs`, `structs.rs`,
  `variables.rs`, `contract.rs`), expressions and casts (`expression.rs`,
  `cast.rs`), statements and control flow graphs (`statement.rs`, `cfg.rs`,
  `printer.rs`), addresses with their checksum (`address.rs`), and checks
  that a parse tree is one the resolver takes (`checks.rs`).
- `src/namespace.rs` – type names and function declarations of a contract
  namespace, with the ABI signature of each function.
- `src/abi/` – Substrate metadata.
- `src/emit.rs`, `src/codegen.rs` – the encoded lengths of ABI values per
  target, and the hash functions contract code can call.
- `src/bignum.rs`, `src/output.rs` – arbitrary size integers and diagnostics.
- `tests/` – tests of the library.
- `app/` – JSON output of the metadata through serde.

Not here: the parser and the back ends. The parse tree is taken as input,
and the LLVM code generation of each target (its ABI encoders and decoders,
the ewasm externals, the Solana storage lookups) is left out: it builds LLVM
IR call by call through `inkwell`, which cannot be built in this setting, and
its logic cannot be parted from those calls. What can be parted from it, the
encoded lengths of ABI values, is in `src/emit.rs`.
