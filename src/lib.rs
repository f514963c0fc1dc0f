//! Reference analysis of a visual-programming project: the graph of the
//! blocks and lists that each block references, a check that the next and
//! parameter references form a forest rooted at the entry points, and the
//! blocks that read a list as the concatenation of its items.
pub mod model;
pub mod graph_construction;
pub mod traversal;
pub mod block_graph;
pub mod laws;
