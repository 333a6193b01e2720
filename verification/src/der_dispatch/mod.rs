//! The site as one energy resource: its total delivered power, and the split
//! of its target across the modules of the site.

pub mod actual_power;
pub mod site_distribution;
