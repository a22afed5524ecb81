use vstd::prelude::*;

verus! {

/// Types of tree nodes
#[derive(Debug, PartialEq, Eq, Structural, Clone, Copy)]
#[allow(missing_docs)]
pub enum NodeType {
    ElementNode,
    AttributeNode,
    TextNode,
    CDataSectionNode,
    EntityRefNode,
    EntityNode,
    PiNode,
    CommentNode,
    DocumentNode,
    DocumentTypeNode,
    DocumentFragNode,
    NotationNode,
    HtmlDocumentNode,
    DTDNode,
    ElementDecl,
    AttributeDecl,
    EntityDecl,
    NamespaceDecl,
    XIncludeStart,
    XIncludeEnd,
    DOCBDocumentNode,
}

/// The meaning of each integer code of the classic node-type numbering.
pub open spec fn node_type_of_int(i: u32) -> Option<NodeType> {
    if i == 1 {
        Some(NodeType::ElementNode)
    } else if i == 2 {
        Some(NodeType::AttributeNode)
    } else if i == 3 {
        Some(NodeType::TextNode)
    } else if i == 4 {
        Some(NodeType::CDataSectionNode)
    } else if i == 5 {
        Some(NodeType::EntityRefNode)
    } else if i == 6 {
        Some(NodeType::EntityNode)
    } else if i == 7 {
        Some(NodeType::PiNode)
    } else if i == 8 {
        Some(NodeType::CommentNode)
    } else if i == 9 {
        Some(NodeType::DocumentNode)
    } else if i == 10 {
        Some(NodeType::DocumentTypeNode)
    } else if i == 11 {
        Some(NodeType::DocumentFragNode)
    } else if i == 12 {
        Some(NodeType::NotationNode)
    } else if i == 13 {
        Some(NodeType::HtmlDocumentNode)
    } else if i == 14 {
        Some(NodeType::DTDNode)
    } else if i == 15 {
        Some(NodeType::ElementDecl)
    } else if i == 16 {
        Some(NodeType::AttributeDecl)
    } else if i == 17 {
        Some(NodeType::EntityDecl)
    } else if i == 18 {
        Some(NodeType::NamespaceDecl)
    } else if i == 19 {
        Some(NodeType::XIncludeStart)
    } else if i == 20 {
        Some(NodeType::XIncludeEnd)
    } else if i == 21 {
        Some(NodeType::DOCBDocumentNode)
    } else {
        None
    }
}

impl NodeType {
    /// Converts an integer of the classic node-type numbering to an instance
    /// of `NodeType`.
    pub fn from_int(i: u32) -> (r: Option<NodeType>)
        ensures
            r == node_type_of_int(i),
    {
        match i {
            1 => Some(NodeType::ElementNode),
            2 => Some(NodeType::AttributeNode),
            3 => Some(NodeType::TextNode),
            4 => Some(NodeType::CDataSectionNode),
            5 => Some(NodeType::EntityRefNode),
            6 => Some(NodeType::EntityNode),
            7 => Some(NodeType::PiNode),
            8 => Some(NodeType::CommentNode),
            9 => Some(NodeType::DocumentNode),
            10 => Some(NodeType::DocumentTypeNode),
            11 => Some(NodeType::DocumentFragNode),
            12 => Some(NodeType::NotationNode),
            13 => Some(NodeType::HtmlDocumentNode),
            14 => Some(NodeType::DTDNode),
            15 => Some(NodeType::ElementDecl),
            16 => Some(NodeType::AttributeDecl),
            17 => Some(NodeType::EntityDecl),
            18 => Some(NodeType::NamespaceDecl),
            19 => Some(NodeType::XIncludeStart),
            20 => Some(NodeType::XIncludeEnd),
            21 => Some(NodeType::DOCBDocumentNode),
            _ => None,
        }
    }
}

} // verus!
