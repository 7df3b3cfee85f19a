//! Verified core of NEAT-AI Forests: residual decision trees grafted onto a
//! NEAT creature, judged by an external scorer.

pub mod baseline;
pub mod bins;
pub mod bytes;
pub mod candidates;
pub mod cli;
pub mod cohort;
pub mod config;
pub mod corpus;
pub mod creature;
pub mod credit;
pub mod digest;
pub mod enhancements;
pub mod fixtures;
pub mod floats;
pub mod gpu;
pub mod graft;
pub mod histogram;
pub mod incumbent;
pub mod journal;
pub mod json;
pub mod learnings;
pub mod local;
pub mod math;
pub mod meta;
pub mod oblique;
pub mod patch;
pub mod promote;
pub mod random;
pub mod ranking;
pub mod report;
pub mod residuals;
pub mod run;
pub mod scorer;
pub mod strategies;
pub mod text;
pub mod tools;
pub mod tree;
pub mod xgboost;
