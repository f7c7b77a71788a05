# Potoroo

A partial-order causal-link (POCL) planner for classical PDDL, with its logic
verified by Verus.

`src/` is the library:

- reading and lowering PDDL: `read`, `ast`, `lower`, with `lower_model` saying what
  each construct denotes;
- the tables and formulas of a task: `types`, `terms`, `predicates`, `functions`,
  `formula`, `effect`, `action`, `domain`, `problem`;
- partial plans: `orderings`, `schedule`, `bindings`, `flaws`, `agenda`, `plan`,
  with `plan_model` saying what each refinement makes of a plan;
- flaw selection and ranking: `heuristics`, `select`, `planning_graph`, `rank`,
  `refine`, `sample_ff`, `lplan`;
- the causal-link compilation: `compile`, `compile_emit`, `ground_task`, `sas`;
- finite-domain tasks and their search: `fdr`, `fdr_text`, `fdr_plan`, `fdr_search`,
  `fdr_pocl` and the modules beside them, `lmcut`, `relax`, with `fdr_run` saying what
  a run of the search is;
- command-line options: `cli`, with decimal numbers in `numerals`;
- what holds across functions: `bindings_laws`, `bindings_coherence`, `pattern_laws`,
  `plan_bindings_laws`, `plan_scope_laws`, `formula_laws`, `fdr_lmcut_laws`,
  `fdr_plan_laws`, `fdr_text_laws`, `flaw_laws`, `ground_laws`, `lplan_laws`, `refine_laws`,
  `sas_laws`, `supports_laws`, and the public proof functions of the other modules.

`app/` is the program: files, processes and printing. It translates a problem with
Fast Downward (`POTOROO_FD`, or `fast-downward.py` on `PATH`) and searches it with
`--fdr-pocl`.

`tests/` runs the library.
