//! What the operations are for, stated over their inputs and results.

pub mod baselines;
pub mod dates;
pub mod documents;
pub mod identities;
pub mod links;
pub mod options;
pub mod order;
pub mod paths;
pub mod references;
pub mod reports;
pub mod sources;
pub mod text;
