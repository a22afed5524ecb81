//! The tree functionality: the node arena, documents, handles and namespaces.

/// Canonical-form serialization
pub mod c14n;

/// Character-sequence helpers shared by the tree types
pub mod chars;

/// Document feature set
pub mod document;

/// Namespace feature set
pub mod namespace;

/// Node feature set
pub mod node;

/// Types of nodes
pub mod nodetype;

/// Serialization of documents and nodes back to text
pub mod serialize;

/// The node arena records and the structural well-formedness of the tree
pub mod shape;

pub use self::c14n::CanonicalizationMode;
pub use self::c14n::CanonicalizationOptions;
pub use self::document::set_node_rc_guard;
pub use self::document::Document;
pub use self::namespace::Namespace;
pub use self::node::Node;
pub use self::nodetype::NodeType;
pub use self::serialize::SaveOptions;
