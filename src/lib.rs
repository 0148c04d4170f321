//! A dependency-ordered engine that translates C declarations with an unreliable model
//! and a compiler as the judge: the schedule over each kind's dependency graph, the
//! naming rules, the repair loop of a candidate (compiler suggestions, imports, model
//! fixes), derive minimisation, signature selection, and the emitted program.


pub mod text;
pub mod strset;
pub mod item;
pub mod result;
pub mod repair;
pub mod schedule;
pub mod names;
pub mod translator;
pub mod derive;
pub mod signature;
pub mod diffing;
