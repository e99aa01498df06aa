# llm_serving_sim

Verified decision logic of a DAM-based simulator of a three-level memory hierarchy and of a
dragonfly network of routers.

- `src/` is the library, written in Verus: the mapping-file reader (`config`, `text`), the tensor
  inventory of a memory level (`inventory`), the pacing of the tensors a level sends (`transfer`),
  the first and last levels as one machine and the middle level's intake (`level`), compute-unit timing (`compute`), the adapters between routers and units (`adapter`), and the
  dragonfly router: its link table (`topology`), output-port choice (`routing`), port names
  (`ports`) and round-by-round state machine (`router`).
- `tests/` runs the library on concrete values.
- `app/` holds the program: it reads the mapping file, builds the DAM contexts, and lets each
  context act on what the library decides (channel operations and clocks belong to DAM). A few
  contexts that need sources the simulator does not ship (a `primitive` module of PCU stages, a
  tensor type with KV-cache fields) are kept there as they stand.
