//! A bounded recursive evaluator for a two-register machine, and a sweep that
//! searches a parameter range for the values that drive it to a target.
//!
//! * [`model`] is the mathematical description of one evaluation.
//! * [`evaluator`] is the executable evaluator, proved equal to the model.
//! * [`sweeper`] tries candidates one after another and collects the matches.
//! * [`laws`] states and proves what holds of every evaluation.
pub mod model;
pub mod evaluator;
pub mod sweeper;
pub mod laws;
