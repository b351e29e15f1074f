use vstd::prelude::*;

verus! {

/// `std::time::SystemTime`, known to Verus as an opaque type.
#[verifier::external_type_specification]
#[verifier::external_body]
pub struct ExSystemTime(std::time::SystemTime);

/// `SystemTime::clone`.  Claimed of std: `SystemTime` is `Copy`, so a clone
/// is the same time.
pub assume_specification[ <std::time::SystemTime as Clone>::clone ](
    t: &std::time::SystemTime,
) -> (r: std::time::SystemTime)
    ensures
        r == *t,
;

/// A translation principle
#[derive(Debug, Clone)]
pub struct Principle {
    pub text: String,
    pub notes: Vec<String>,
    pub reference: Option<String>,
}

/// Translation table: the principles, and the glossary as pairs of an
/// English term and its translation, no term listed twice.
#[derive(Debug, Clone)]
pub struct TranslationTable {
    pub principles: Vec<Principle>,
    pub glossary: Vec<(String, String)>,
}

impl TranslationTable {
    /// Well formed: no glossary term is listed twice, as in the map that the
    /// table is read from.
    pub open spec fn wf(&self) -> bool {
        crate::terminology::distinct_terms(crate::terminology::pairs_view(self.glossary@))
    }
}

/// Checkpoint for resume capability
#[derive(Debug, Clone)]
pub struct TranslationCheckpoint {
    pub completed_chunks: usize,
    pub total_chunks: usize,
    pub translated_content: Vec<String>,
    pub timestamp: std::time::SystemTime,
}

/// A chunk of markdown content with metadata
#[derive(Debug, Clone)]
pub struct MarkdownChunk {
    pub content: String,
    pub contains_code: bool,
    pub token_count: usize,
}

impl MarkdownChunk {
    pub fn new(content: String, contains_code: bool, token_count: usize) -> (chunk: Self)
        ensures
            chunk.content == content,
            chunk.contains_code == contains_code,
            chunk.token_count == token_count,
    {
        MarkdownChunk { content, contains_code, token_count }
    }
}

} // verus!
