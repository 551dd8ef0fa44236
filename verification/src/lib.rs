//! Balanced transportation problems: a north-west-corner starting plan and
//! its improvement by dual potentials and stepping-stone cycles.

pub mod grid;
pub mod problem;
pub mod cycle;
pub mod potentials;
pub mod optimize;
pub mod laws;
