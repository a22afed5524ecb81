//! Canonical-form serialization options and entry point.

use vstd::prelude::*;

use crate::tree::document::Document;
use crate::tree::serialize::ser_kids;

verus! {

/// Canonicalization specification variant to use.  This engine writes its
/// one canonical style for every variant: no declaration line, empty tags
/// expanded, attributes and declarations in their stored order.
#[derive(Copy, Clone, PartialEq, Eq, Structural, Debug)]
pub enum CanonicalizationMode {
    /// The original canonical-form specification
    Canonical1_0,
    /// The exclusive canonical-form specification
    ExclusiveCanonical1_0,
    /// The revised canonical-form specification
    Canonical1_1,
}

impl Default for CanonicalizationMode {
    /// The default canonical-form variant.
    fn default() -> (r: Self)
        ensures
            r == CanonicalizationMode::ExclusiveCanonical1_0,
    {
        CanonicalizationMode::ExclusiveCanonical1_0
    }
}

/// Options for configuring how to canonicalize a document.
#[derive(Clone, Debug)]
pub struct CanonicalizationOptions {
    /// Canonicalization specification to use
    pub mode: CanonicalizationMode,
    /// Whether comment nodes are kept in the canonical text
    pub with_comments: bool,
    /// Namespaces to keep even if they are unused (accepted for
    /// compatibility; declarations are written as stored)
    pub inclusive_ns_prefixes: Vec<String>,
}

impl Default for CanonicalizationOptions {
    /// The default canonicalization options.
    fn default() -> (r: Self)
        ensures
            r.mode == CanonicalizationMode::ExclusiveCanonical1_0,
            !r.with_comments,
            r.inclusive_ns_prefixes@.len() == 0,
    {
        CanonicalizationOptions {
            mode: CanonicalizationMode::ExclusiveCanonical1_0,
            with_comments: false,
            inclusive_ns_prefixes: Vec::new(),
        }
    }
}

impl Document {
    /// Canonicalize the document and return the canonical text: the
    /// serialized tree without a declaration line, with empty tags written
    /// as an open and close pair, and with comments kept only when the
    /// options say so.
    pub fn canonicalize(&self, options: CanonicalizationOptions) -> (r: Result<String, ()>)
        requires
            self.wf(),
        ensures
            r matches Ok(s) && s@ == ser_kids(self.nodes@, 0, 0, true, !options.with_comments),
    {
        let mut out: Vec<char> = Vec::new();
        crate::tree::serialize::emit_kids(self, 0, true, !options.with_comments, &mut out);
        Ok(crate::tree::chars::chars_to_string(&out))
    }
}

} // verus!
