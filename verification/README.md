# edr_eip712

Two parts of an Ethereum development runtime, verified with Verus:

- **EIP-712 types.** Collects the canonical type definitions of all structs in a
  Solidity compilation unit. Structs that cannot be used (conflicting definitions,
  members without an EIP-712 form, or a dependency that cannot be used) are kept
  with the reason, so that a lookup can explain why a type is unavailable.
- **Raw traces.** Flattens a recorded call tree into messages, steps and results.

| Directory | Contents |
| --- | --- |
| `src/` | the library, verified against its contracts |
| `tests/` | tests that run the library with the outside crates linked |
| `app/` | file access, Slang, threads and N-API objects around the library |

Calls into outside crates (`alloy-dyn-abi`, `revm`, `revm-inspectors`, `semver`)
stand behind wrappers in `src/types.rs`, `src/evm.rs` and `src/version.rs`. Their
contracts are not proved; the doc comment of each says what it claims of the
outside function.

Laws that relate several functions are the public proof functions whose names
begin with `law_`.
