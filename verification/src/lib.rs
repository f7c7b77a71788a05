//! A verified partial-order causal-link (POCL) planning library.
use vstd::prelude::*;

pub mod action;
pub mod agenda;
pub mod ast;
pub mod atom_table;
pub mod bindings;
pub mod bindings_coherence;
pub mod bindings_laws;
pub mod causal_laws;
pub mod chain;
pub mod choice_laws;
pub mod cli;
pub mod clock;
pub mod compile;
pub mod compile_emit;
pub mod compile_model;
pub mod domain;
pub mod effect;
pub mod estimate_laws;
pub mod execution_laws;
pub mod expressions;
pub mod external;
pub mod fasthash;
pub mod fdr;
pub mod fdr_completeness;
pub mod fdr_estimate_laws;
pub mod fdr_estimates;
pub mod fdr_execution;
pub mod fdr_lmcut;
pub mod fdr_lmcut_laws;
pub mod fdr_plan;
pub mod fdr_plan_laws;
pub mod fdr_pocl;
pub mod fdr_rank;
pub mod fdr_refine;
pub mod fdr_run;
pub mod fdr_search;
pub mod fdr_search_laws;
pub mod fdr_select_laws;
pub mod fdr_soundness;
pub mod fdr_text;
pub mod fdr_text_laws;
pub mod flaw_laws;
pub mod flaws;
pub mod formula;
pub mod formula_laws;
pub mod functions;
pub mod gap_fill;
pub mod graph_extract;
pub mod graph_ground;
pub mod graph_model;
pub mod graph_plan;
pub mod ground_laws;
pub mod ground_run;
pub mod ground_task;
pub mod heuristics;
pub mod hvalue;
pub mod instantiate;
pub mod instantiate_laws;
pub mod linearize;
pub mod lmcut;
pub mod lower;
pub mod lower_error;
pub mod lower_model;
pub mod lplan;
pub mod lplan_laws;
pub mod names;
pub mod numerals;
pub mod orderings;
pub mod params;
pub mod pddl_emit;
pub mod pattern_laws;
pub mod plan;
pub mod plan_bindings_laws;
pub mod plan_counts;
pub mod plan_model;
pub mod plan_scope_laws;
pub mod planning_graph;
pub mod predicates;
pub mod problem;
pub mod queue;
pub mod rank;
pub mod read;
pub mod refine;
pub mod refine_laws;
pub mod relax;
pub mod relaxed_plan;
pub mod render;
pub mod requirements;
pub mod sample_ff;
pub mod sas;
pub mod sas_laws;
pub mod schedule;
pub mod search;
pub mod select;
pub mod select_laws;
pub mod step;
pub mod supports;
pub mod supports_laws;
pub mod syntax_laws;
pub mod terms;
pub mod text;
pub mod threat_laws;
pub mod types;
pub mod typing;

verus! {

} // verus!
