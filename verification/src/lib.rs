//! An interpreter for version 3 story files of the Z-machine.

pub mod bits;
pub mod constants;
pub mod zmath;
pub mod zinst;
pub mod zstr;
pub mod ztree;
pub mod zmemory;
pub mod zlex;
pub mod zstate;
pub mod zmachine;

pub use zmachine::ZMachine;
pub use zstate::ZMachineExecResult;
