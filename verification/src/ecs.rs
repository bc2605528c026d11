//! Entity-component-system building blocks: typed ids, dynamically tagged
//! values, the containers that hold them, and the dependency analysis that
//! decides in which order handlers and systems run.

pub mod call;
pub mod dependency;
pub mod entity;
pub mod event;
pub mod handler;
pub mod reactor;
pub mod state;
pub mod system;
pub mod topic;
