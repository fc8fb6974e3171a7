//! Traffic shaping and policing: the desired state of the limiter, and the steps
//! that bring it onto the kernel.

pub mod cgroup;
pub mod effects;
pub mod flow_key;
pub mod group_name;
pub mod laws;
pub mod limiter;
pub mod nft;
pub mod proc_connector;
pub mod step;
pub mod tc;
