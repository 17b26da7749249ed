# ignis_core

The core of a single-GPU inference engine: the scheduler that shares eight
decode lanes, a pool of KV pages and a tier of host memory among requests, the
caches that let one request resume from what another computed, and the planning
of a forward pass over quantised weights. The library is written in Verus. What
it decides and computes is stated in contracts and proved.

## Layout

- `src/serving.rs` holds one step of the scheduler, `ConcreteScheduler::advance`.
  `prefill`, `chunks` and `landing` are its prefill half; `deal`, `eviction` and
  `rounds` the half that deals lanes, makes room and decodes.
- `src/concrete.rs` states the scheduler's invariant, `src/laws.rs` what follows
  from it between any two calls, and `src/cancelled.rs` that nothing reported
  names a cancelled request. `src/runs.rs` states what holds after any run of
  calls. `ledger` and `moves` count, `lifecycle` submits,
  cancels and ends, `retention` and `reuse` keep and give up retained state.
- `admission`, `checkpoint`, `prefix`, `host`, `retained_slot`, `gdn`, `identity`
  and `request` are the ledgers and rules the scheduler stands on.
- `decision` and `constrained` read answers off a prompt and bound what a run may
  draw.
- `model`, `weights`, `artifact`, `bf16`, `nvfp4`, `sequence`, `forward`,
  `backend` and `attn_tap` describe the model, its weights and state, and plan
  each step the kernels are asked for. Floats are carried as bit patterns.
- `app/` calls the kernels, does the arithmetic on floats, and reads the
  environment. It executes the steps the library plans.
- `tests/` run the library against a scripted backend.

The backend is a trait, `scheduler::Compute`. Nothing is assumed of it: the
scheduler's invariant holds whatever it answers, and the contract of an advance
says, over the answers it gave, what was sent, moved and reported.
