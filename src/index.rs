use vstd::prelude::*;
use crate::words::{texts, copy_range, range_is};

verus! {

/// The index of known words, looked up by character sequence.
pub struct WordCharMap {
    pub words: Vec<Vec<char>>,
}

/// Greedy, left-anchored, longest-candidate-first segmentation of `w[start..]`,
/// the first candidate being `w[start..end]`: a candidate found in `lex` is taken
/// and the scan restarts after it at full length; one not found is shortened by
/// one character, and the segmentation fails once no candidate is left.
pub open spec fn greedy(lex: Seq<Seq<char>>, w: Seq<char>, start: int, end: int) -> Option<
    Seq<Seq<char>>,
>
    decreases w.len() - start, end,
{
    if !(0 <= start <= end <= w.len()) {
        None
    } else {
        let sub = w.subrange(start, end);
        if start < end && lex.contains(sub) {
            if end == w.len() {
                Some(seq![sub])
            } else {
                extend(seq![sub], greedy(lex, w, end, w.len() as int))
            }
        } else if end == start {
            None
        } else {
            greedy(lex, w, start, end - 1)
        }
    }
}

/// Puts `p` in front of a segmentation, if there is one.
pub open spec fn extend(p: Seq<Seq<char>>, r: Option<Seq<Seq<char>>>) -> Option<Seq<Seq<char>>> {
    match r {
        Some(s) => Some(p + s),
        None => None,
    }
}

/// The decomposition of a word: its greedy segmentation whose first candidate
/// leaves out the word's last character, so that the word never matches itself.
pub open spec fn decomposition(lex: Seq<Seq<char>>, w: Seq<char>) -> Option<Seq<Seq<char>>> {
    greedy(lex, w, 0, w.len() - 1)
}

proof fn lemma_greedy_shorter(lex: Seq<Seq<char>>, w: Seq<char>, start: int, end: int)
    requires
        0 <= start <= end <= w.len(),
        start > 0 || end < w.len(),
        greedy(lex, w, start, end) is Some,
    ensures
        forall|k: int|
            0 <= k < greedy(lex, w, start, end).unwrap().len() ==> #[trigger] greedy(
                lex,
                w,
                start,
                end,
            ).unwrap()[k].len() < w.len(),
    decreases w.len() - start, end,
{
    let sub = w.subrange(start, end);
    if start < end && lex.contains(sub) {
        if end < w.len() {
            lemma_greedy_shorter(lex, w, end, w.len() as int);
            let r = greedy(lex, w, end, w.len() as int).unwrap();
            assert forall|k: int| 0 <= k < (seq![sub] + r).len() implies #[trigger] (seq![sub]
                + r)[k].len() < w.len() by {
                if k > 0 {
                    assert((seq![sub] + r)[k] == r[k - 1]);
                }
            }
        }
    } else if end > start {
        lemma_greedy_shorter(lex, w, start, end - 1);
    }
}

/// A word's decomposition never uses the word itself: every component is strictly
/// shorter than the word.
pub proof fn law_no_self_match(lex: Seq<Seq<char>>, w: Seq<char>)
    ensures
        decomposition(lex, w) matches Some(p) ==> forall|k: int|
            0 <= k < p.len() ==> #[trigger] p[k].len() < w.len() && p[k] != w,
{
    if decomposition(lex, w) is Some {
        lemma_greedy_shorter(lex, w, 0, w.len() - 1);
    }
}

impl View for WordCharMap {
    type V = Seq<Seq<char>>;

    open spec fn view(&self) -> Seq<Seq<char>> {
        texts(self.words@)
    }
}

impl WordCharMap {
    /// No word of the index is empty.
    pub open spec fn wf(&self) -> bool {
        forall|i: int| 0 <= i < self@.len() ==> #[trigger] self@[i].len() > 0
    }

    /// Builds the index over the given words, none of them empty.
    pub fn new(words: Vec<Vec<char>>) -> (r: WordCharMap)
        requires
            forall|i: int| 0 <= i < words@.len() ==> #[trigger] words@[i]@.len() > 0,
        ensures
            r@ == texts(words@),
            r.wf(),
    {
        WordCharMap { words }
    }

    /// Whether `w[start..end]` is a word of the index.
    pub fn contains_range(&self, w: &Vec<char>, start: usize, end: usize) -> (r: bool)
        requires
            start <= end <= w.len(),
        ensures
            r == self@.contains(w@.subrange(start as int, end as int)),
    {
        let mut i: usize = 0;
        while i < self.words.len()
            invariant
                start <= end <= w.len(),
                i <= self.words.len(),
                forall|j: int| 0 <= j < i ==> self@[j] != w@.subrange(start as int, end as int),
            decreases self.words.len() - i,
        {
            if range_is(w, start, end, &self.words[i]) {
                proof {
                    assert(self@[i as int] == w@.subrange(start as int, end as int));
                }
                return true;
            }
            i += 1;
        }
        false
    }

    /// Splits a word into known sub-words by greedy segmentation; `None` where the
    /// word is not a compound of known words.
    pub fn decompose(&self, w: &Vec<char>) -> (r: Option<Vec<Vec<char>>>)
        requires
            self.wf(),
            w@.len() > 0,
        ensures
            r.is_some() == decomposition(self@, w@).is_some(),
            r matches Some(p) ==> texts(p@) == decomposition(self@, w@).unwrap(),
    {
        let n = w.len();
        let mut parts: Vec<Vec<char>> = Vec::new();
        let mut start: usize = 0;
        let mut end: usize = n - 1;
        loop
            invariant
                self.wf(),
                n == w@.len(),
                start <= end <= n,
                start < n,
                decomposition(self@, w@) == extend(
                    texts(parts@),
                    greedy(self@, w@, start as int, end as int),
                ),
            decreases n - start, end,
        {
            let ghost g = greedy(self@, w@, start as int, end as int);
            let ghost before = texts(parts@);
            if self.contains_range(w, start, end) {
                let ghost sub = w@.subrange(start as int, end as int);
                proof {
                    let k = choose|k: int| 0 <= k < self@.len() && self@[k] == sub;
                    assert(self@[k].len() > 0);
                }
                let piece = copy_range(w, start, end);
                parts.push(piece);
                proof {
                    assert(texts(parts@) =~= before.push(sub));
                }
                if end == n {
                    proof {
                        assert(before + seq![sub] =~= before.push(sub));
                    }
                    return Some(parts);
                }
                proof {
                    let rest = greedy(self@, w@, end as int, n as int);
                    match rest {
                        Some(s) => {
                            assert(before + (seq![sub] + s) =~= before.push(sub) + s);
                        },
                        None => {},
                    }
                }
                start = end;
                end = n;
            } else {
                if end == start {
                    return None;
                }
                end = end - 1;
            }
        }
    }
}

} // verus!
