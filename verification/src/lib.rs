pub mod ast;
pub mod lexer;
pub mod parser;
pub mod types;
pub mod ir;
pub mod ssa;
pub mod runtime;
pub mod cfg;
pub mod cfg_runtime;
pub mod cfg_opt;
pub mod dominance;
pub mod cfg_opt_laws;
pub mod ssa_laws;
pub mod build_laws;
pub mod check_laws;
pub mod value_laws;
pub mod optimized_laws;
pub mod corpus;
pub mod result_laws;
pub mod fold_laws;
pub mod meaning_laws;
pub mod grammar_laws;
pub mod agreement_laws;
pub mod branch_laws;
