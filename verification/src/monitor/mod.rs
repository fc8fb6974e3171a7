//! Live traffic of each application: frames are parsed, attributed to the
//! executable that owns the flow, counted, and sampled once per second.

pub mod accum;
pub mod capture;
pub mod connections;
pub mod flows;
pub mod lan;
pub mod live;
pub mod procmap;
