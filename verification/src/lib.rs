//! Layered storage: windowed views over stacks of layers, and flattening one view's net effect
//! into another stack's top layer.

pub mod aftermath;
pub mod catalog;
pub mod codec;
pub mod content;
pub mod flatten;
pub mod frontier;
pub mod iter;
pub mod keys;
pub mod laws;
pub mod layer;
pub mod measure;
pub mod net;
pub mod order;
pub mod report;
pub mod scan;
pub mod stack;
