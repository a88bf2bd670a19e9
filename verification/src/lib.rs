//! Two small linked containers: a first-in, first-out [`queue::Queue`] and a
//! last-in, first-out [`stack::Stack`], each with a sequence as its model.

pub mod model;
pub mod queue;
pub mod stack;
