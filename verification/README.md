# infotheory

Information measures over byte strings, with the models that drive them: a suffix automaton with
back-off, hashed context counters, a bounded-memory context model, a bit reservoir, a secondary
estimator, streaming ZPAQ, and the online training of a recurrent network.

- `src/` is the library. Counts, automata, schedules, text formats, file formats and session state
  machines live here, with contracts proved by Verus. Real numbers cross its border as text or as
  bits.
- `tests/` runs the library.
- `app/` is ordinary Rust around it: floating point, files, threads, and the lists of floats in
  the JSON beside weights.

Where to look first:

| Subject | Modules |
| --- | --- |
| Policies, their text and their schedules | `backends::llm_policy`, `policy_schedule`, `policy_forms`, `policy_laws` |
| Methods and paths | `backends::method_path`, `path_laws`, `backends::rwkvzip::method`, `method_laws` |
| Suffix automaton model | `backends::rosaplus` |
| Compressed files and training state | `backends::rwkvzip` |
| Sessions over bytes and bits | `api` |
| Numbers, as text and as a machine holds them | `reals`, `real_forms`, `machine_numbers`, `limbs` |

Public proof functions whose names begin with `law_` state what holds of the library as a whole.
