// A computation graph whose nodes memoize their values and are invalidated
// exactly when an input they read changes.

pub mod computational_graph;
pub mod laws;
pub mod node;
pub mod utils;
