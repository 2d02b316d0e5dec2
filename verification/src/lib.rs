//! A verified search engine over a document object graph.
//!
//! Documents are modelled as typed nodes (`Node`): scalars, arrays,
//! dictionaries with ordered string keys, streams carrying a metadata
//! dictionary, and indirect references that an external resolution
//! capability (`Resolver`) turns into nodes.  The engine finds every
//! path from a root dictionary to an entry whose key equals a target
//! string, following references while staying safe on cyclic graphs.

pub mod node;
pub mod path;
pub mod replay;
pub mod resolver;
pub mod search;

pub use node::Dict;
pub use node::Node;
pub use node::RefId;
pub use node::StreamNode;
pub use path::PathElem;
pub use path::SearchPath;
pub use path::path_to_string;
pub use resolver::MapResolver;
pub use resolver::ResolveError;
pub use resolver::Resolver;
pub use search::search;
pub use search::search_key;
