//! The verified core of a ROS 2 parameter workbench: the parameter model and
//! its change tracking, the export of parameters as standard ROS 2 parameter
//! YAML, a demonstration backend, and the decisions of the client of the
//! ROS 2 agent.

pub mod mock;
pub mod model;
pub mod rpc;
pub mod scalar;
pub mod text;
pub mod yaml;
