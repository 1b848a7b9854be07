//! A book: a title, its text, and the analytics computed over that
//! text at construction.

use vstd::prelude::*;
use crate::analytics::Analytics;
use crate::analytics::counts_match;
use crate::analytics::sum_counts;
use crate::text::norm_tokens;
use crate::text::tokens;

verus! {

/// A titled text together with the analytics of its content.
pub struct Book {
    title: String,
    content: String,
    analytics: Analytics,
}

impl Book {
    /// The title.
    pub closed spec fn spec_title(&self) -> Seq<char> {
        self.title@
    }

    /// The text.
    pub closed spec fn spec_content(&self) -> Seq<char> {
        self.content@
    }

    /// The analytics computed over the text.
    pub closed spec fn spec_analytics(&self) -> Analytics {
        self.analytics
    }

    /// Builds a book and its analytics over `content`.
    pub fn new(title: String, content: String) -> (result: Book)
        requires
            content@.len() <= u32::MAX,
        ensures
            result.spec_title() == title@,
            result.spec_content() == content@,
            result.spec_analytics().wf(),
            counts_match(result.spec_analytics().table(), norm_tokens(content@)),
            sum_counts(result.spec_analytics().table()) == tokens(content@).len(),
    {
        let analytics = Analytics::new(&content);
        Book { title, content, analytics }
    }
}

} // verus!
