//! Indexes: what an index is made over.

use vstd::prelude::*;

verus! {

/// Query languages.
#[derive(Debug, Clone, Copy, PartialEq, Eq, Structural)]
pub enum QueryLanguage {
    /// The JSON query schema.
    JSON,
    /// The N1QL syntax.
    N1QL,
}

/// What a value index is made over: expressions in one of the query languages.
#[derive(Debug)]
pub struct ValueIndexConfiguration {
    pub(crate) language: QueryLanguage,
    pub(crate) expressions: String,
}

impl ValueIndexConfiguration {
    /// The language of the expressions.
    pub closed spec fn spec_language(&self) -> QueryLanguage {
        self.language
    }

    /// The expressions.
    pub closed spec fn spec_expressions(&self) -> Seq<char> {
        self.expressions@
    }

    /// The configuration of an index over `expressions`, which are written in
    /// `query_language`.
    pub fn new(query_language: QueryLanguage, expressions: &str) -> (r: ValueIndexConfiguration)
        ensures
            r.spec_language() == query_language,
            r.spec_expressions() == expressions@,
    {
        ValueIndexConfiguration { language: query_language, expressions: expressions.to_owned() }
    }

    /// The language of the expressions.
    pub fn language(&self) -> (r: QueryLanguage)
        ensures
            r == self.spec_language(),
    {
        self.language
    }

    /// The expressions.
    pub fn expressions(&self) -> (r: &str)
        ensures
            r@ == self.spec_expressions(),
    {
        self.expressions.as_str()
    }
}

} // verus!
