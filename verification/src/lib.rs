//! XiRang: nodes, trees and the files that hold them.
//!
//! A tree is a list of nodes; a node has an id, a parent edge, a name and a
//! value. The modules below give the byte format of nodes and files, the tree
//! operations, the structural checks, the indexes and the conversions, each
//! with a contract over a mathematical model.

pub mod backend;
pub mod batch;
pub mod bytes;
pub mod catalog;
pub mod change;
pub mod codec;
pub mod console;
pub mod convert;
pub mod edit;
pub mod fixture;
pub mod floats;
pub mod fresh;
pub mod grow;
pub mod header;
pub mod idmap;
pub mod index;
pub mod json;
pub mod ledger;
pub mod lookup;
pub mod model;
pub mod ops;
pub mod paths;
pub mod query;
pub mod reply;
pub mod renew;
pub mod report;
pub mod request;
pub mod scan;
pub mod search;
pub mod shard;
pub mod sort;
pub mod template;
pub mod text;
pub mod tools;
pub mod transfer;
pub mod tree;
pub mod validator;
pub mod workspace;
pub mod wsidx;
pub mod xml;
