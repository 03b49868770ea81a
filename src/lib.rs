//! Production planning core: an entity catalog of points, routes, articles and
//! storages, the dependency graph that composition conditions induce between
//! articles, inventory totals over storages, and the earliest-availability
//! scheduler that combines them.
pub mod catalog;
pub mod depgraph;
pub mod flow;
pub mod inventory;
pub mod scheduler;
