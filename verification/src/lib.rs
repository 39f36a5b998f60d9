//! Graph analytics over entities that share categorical attributes.
//!
//! A [`graph::Graph`] holds named nodes, weighted undirected adjacency lists, an optional
//! numeric attribute per node and the category labels of each node. It is built from
//! records, or loaded from comma-separated text, and then only read:
//!
//! - [`dijkstra`] finds the shortest distances from one node;
//! - [`centrality`] traverses the graph breadth-first and yields what the centrality of a
//!   node is made of;
//! - [`community`] groups nodes by label, links labels that share a node, and finds the
//!   connected components of the entities;
//! - [`prioritizer`] selects nodes by greedy maximum coverage;
//! - [`ranking`] ranks by descending score;
//! - [`config`] refuses a configuration that makes no sense before any work begins.
//!
//! Nodes and labels are numbered in the order in which they first occur; the functions
//! take and yield these numbers, and the graph maps numbers to names and back.
//! Scores that need logarithms or quotients are not computed here: the functions yield the
//! exact integers they are computed from.
pub mod centrality;
pub mod community;
pub mod config;
pub mod dijkstra;
pub mod graph;
pub mod loader;
pub mod prioritizer;
pub mod ranking;
pub mod text;
