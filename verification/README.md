# terrain_gen

A scheduler for terrain generation passes. Users register passes, each with
the parameters it needs, the data it reads, writes and creates, and the
passes that must complete before it. A registration is checked, then the
passes are run: a pass starts once its prerequisites have completed and the
data it requests exists, readers of a datum may share it, and a writer waits
until no pass reads it.

Layout:

- `src/` is the verified library (Verus). `generator_state` holds the
  registration builders and the checks a registration must pass;
  `generation` holds the run state, its invariant, the scheduling steps
  (`next_action`, `handle_pass_result`, `pass_inputs`, `store_pass_output`)
  and the laws proved of every run; `data_usage` tracks who reads and writes
  each datum; `wait_counts` tracks what each pass still waits on;
  `scheduler_pass_data` is what a running pass receives; `terrain_generation`
  holds the builders of chunked runs.
- `tests/` runs the library on concrete registrations.
- `app/` runs the passes on a thread pool: it performs the actions the
  library decides and reports each pass's result back to it.
