use vstd::prelude::*;

verus! {

/// One page of a dictionary bucket: its words, and the bucket's total word count.
pub struct WordsPage {
    pub words: Vec<String>,
    pub max_count: usize,
}

/// How many words the remote service puts on one page.
pub const WORD_PER_PAGE: usize = 10;

impl WordsPage {
    /// The number of the last page of the bucket, counting from one.
    pub fn max_page(&self) -> (r: usize)
        ensures
            r == self.max_count / WORD_PER_PAGE + 1,
    {
        self.max_count / WORD_PER_PAGE + 1
    }
}

} // verus!
