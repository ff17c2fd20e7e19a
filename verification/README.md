# magma

Typed convergence for infrastructure: what is wanted is compared with what is
there, the difference becomes a plan with an id of its own, a policy decides
about each change, and what may be carried out is carried out.

The library in `src/` is verified with Verus. Every public function states in
its contract what it returns or changes, and what holds of the library as a
whole is stated in public proof functions named `law_...`.

## Layout

| Where | What |
|---|---|
| `src/text.rs`, `ordmap.rs`, `keyed.rs`, `json.rs`, `digest.rs`, `time.rs` | texts, ordered maps, JSON, digests, points in time |
| `src/types.rs` | addresses, providers, changes and states of resources |
| `src/config/` | Terraform JSON: its blocks, references between resources, meta-arguments |
| `src/cty/` | types and values of the provider protocol, in JSON and MessagePack |
| `src/converge/` | plans, outcomes and reconcilers; inventories, conditions, health, selectors, manifests, artifacts, blob stores, webhooks, policies |
| `src/drift.rs` | what a policy says of each change |
| `src/discover.rs` | resources that are there but not declared |
| `src/controller.rs` | the loop: plan, decide, carry out, and the phases it goes through |
| `src/flow.rs` | workspaces that feed each other, and the order to plan them in |
| `src/derive.rs` | names for the variants of an enum |
| `src/fixtures.rs` | builders of configurations and states |
| `src/cli.rs` | what the command line decides and prints |
| `tests/` | tests of all of these |
| `app/` | the command line, the services' clients, what is read and written |

## What is trusted

Where the library calls another crate, the call stands in a small function
marked `#[verifier::external_body]`, whose comment names what is called and
says what its contract claims. The result of a call that no few lines can
state has a name, a spec function without a body, and the contracts above it
speak of that name: the text of a JSON value, a BLAKE3 digest, the bytes of a
MessagePack message.
