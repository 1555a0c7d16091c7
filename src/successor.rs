use vstd::prelude::*;
use crate::words::{copy_range, texts};
use crate::compound::{CompoundWords, NonCompoundWords, find_entry};
use crate::search::{closed, rows_distinct};

verus! {

/// For each base word, by position, the positions of the base words that may follow it.
pub struct SuccessorCache {
    pub nexts: Vec<Vec<usize>>,
}

/// The positions `0..n`, in order.
pub open spec fn indices(n: nat) -> Seq<usize> {
    Seq::new(n, |j: int| j as usize)
}

/// The positions `j` of the base words for which `base[i] · base[j]` is a compound word.
pub open spec fn successors(base: Seq<Seq<char>>, keys: Set<Seq<char>>, i: int) -> Seq<usize> {
    indices(base.len()).filter(|j: usize| keys.contains(base[i] + base[j as int]))
}

impl View for SuccessorCache {
    type V = Seq<Seq<usize>>;

    open spec fn view(&self) -> Seq<Seq<usize>> {
        self.nexts@.map_values(|v: Vec<usize>| v@)
    }
}

/// The characters of `a` followed by those of `b`.
pub fn joined(a: &Vec<char>, b: &Vec<char>) -> (r: Vec<char>)
    ensures
        r@ == a@ + b@,
{
    let mut out = copy_range(a, 0, a.len());
    proof {
        assert(a@.subrange(0, a@.len() as int) =~= a@);
    }
    let mut i: usize = 0;
    while i < b.len()
        invariant
            i <= b.len(),
            out@ == a@ + b@.take(i as int),
        decreases b.len() - i,
    {
        out.push(b[i]);
        proof {
            assert(out@ =~= a@ + b@.take(i + 1));
        }
        i += 1;
    }
    proof {
        assert(b@.take(b@.len() as int) =~= b@);
    }
    out
}

/// The positions, in order, of the base words that may follow the base word at
/// position `word`.
pub fn find_successors(
    non_compound_words: &NonCompoundWords,
    compound_words: &CompoundWords,
    word: usize,
) -> (r: Vec<usize>)
    requires
        (word as int) < non_compound_words@.len(),
    ensures
        r@ == successors(non_compound_words@, compound_words@.dom(), word as int),
        forall|k: int| 0 <= k < r@.len() ==> (#[trigger] r@[k] as int) < non_compound_words@.len(),
        r@.no_duplicates(),
{
    let base = &non_compound_words.words;
    let ghost bv = non_compound_words@;
    let ghost keys = compound_words@.dom();
    let n = base.len();
    let i = word;
    let mut row: Vec<usize> = Vec::new();
    let ghost pred = |j: usize| keys.contains(bv[i as int] + bv[j as int]);
    let mut j: usize = 0;
    while j < n
        invariant
            n == base@.len(),
            bv == texts(base@),
            bv.len() == n,
            keys == compound_words@.dom(),
            i < n,
            j <= n,
            pred == (|j: usize| keys.contains(bv[i as int] + bv[j as int])),
            row@ == indices(n as nat).take(j as int).filter(pred),
            forall|k: int| 0 <= k < row@.len() ==> (#[trigger] row@[k] as int) < j,
            row@.no_duplicates(),
        decreases n - j,
    {
        let t = joined(&base[i], &base[j]);
        let found = find_entry(&compound_words.entries, &t);
        proof {
            assert(bv[i as int] == base@[i as int]@);
            assert(bv[j as int] == base@[j as int]@);
            match found {
                Some(x) => {
                    assert(compound_words.entries@[x as int].word@ == t@);
                },
                None => {},
            }
            assert(found.is_some() == keys.contains(t@));
            assert(indices(n as nat).take(j + 1) =~= indices(n as nat).take(j as int).push(j));
            indices(n as nat).take(j as int).lemma_filter_push(j, pred);
        }
        if found.is_some() {
            row.push(j);
        }
        j += 1;
    }
    proof {
        assert(indices(n as nat).take(n as int) =~= indices(n as nat));
    }
    row
}

impl SuccessorCache {
    /// There are `n` words; every successor is the position of one of them, and
    /// no list names a word twice.
    pub open spec fn wf(&self, n: nat) -> bool {
        &&& self@.len() == n
        &&& closed(self@, n)
        &&& rows_distinct(self@)
    }

    /// Tests every pair of base words, in order, and records `b` as a successor of `a`
    /// where `a · b` is a compound word.
    pub fn new(non_compound_words: &NonCompoundWords, compound_words: &CompoundWords) -> (r:
        SuccessorCache)
        ensures
            r.wf(non_compound_words@.len()),
            forall|i: int|
                0 <= i < non_compound_words@.len() ==> #[trigger] r@[i] == successors(
                    non_compound_words@,
                    compound_words@.dom(),
                    i,
                ),
    {
        let ghost bv = non_compound_words@;
        let ghost keys = compound_words@.dom();
        let n = non_compound_words.words.len();
        let mut nexts: Vec<Vec<usize>> = Vec::new();
        let mut i: usize = 0;
        while i < n
            invariant
                bv == non_compound_words@,
                bv.len() == n,
                keys == compound_words@.dom(),
                i <= n,
                nexts@.len() == i,
                forall|a: int| 0 <= a < i ==> #[trigger] nexts@[a]@ == successors(bv, keys, a),
                forall|a: int, k: int|
                    0 <= a < i && 0 <= k < nexts@[a]@.len() ==> (#[trigger] nexts@[a]@[k] as int) < n,
                forall|a: int| 0 <= a < i ==> (#[trigger] nexts@[a]@).no_duplicates(),
            decreases n - i,
        {
            let row = find_successors(non_compound_words, compound_words, i);
            nexts.push(row);
            i += 1;
        }
        let r = SuccessorCache { nexts };
        proof {
            assert forall|a: int| 0 <= a < n implies #[trigger] r@[a] == successors(bv, keys, a) by {
                assert(r@[a] == nexts@[a]@);
            }
            assert forall|a: int, k: int| 0 <= a < n && 0 <= k < r@[a].len() implies (
            #[trigger] r@[a][k] as int) < n by {
                assert(r@[a] == nexts@[a]@);
            }
            assert forall|a: int| 0 <= a < r@.len() implies (#[trigger] r@[a]).no_duplicates() by {
                assert(r@[a] == nexts@[a]@);
            }
        }
        r
    }

    /// The successors of the base word at position `word`, if there is one.
    pub fn successor_for(&self, word: usize) -> (r: Option<&Vec<usize>>)
        ensures
            r is Some == (word < self@.len()),
            r matches Some(v) ==> v@ == self@[word as int],
    {
        if word < self.nexts.len() {
            Some(&self.nexts[word])
        } else {
            None
        }
    }

    /// Whether `word_b` may follow `word_a`.
    pub fn is_2_words_compound(&self, word_a: usize, word_b: usize) -> (r: bool)
        ensures
            r == (word_a < self@.len() && self@[word_a as int].contains(word_b)),
    {
        let Some(nexts) = self.successor_for(word_a) else {
            return false;
        };
        let mut k: usize = 0;
        while k < nexts.len()
            invariant
                word_a < self@.len(),
                nexts@ == self@[word_a as int],
                k <= nexts.len(),
                forall|x: int| 0 <= x < k ==> nexts@[x] != word_b,
            decreases nexts.len() - k,
        {
            if nexts[k] == word_b {
                proof {
                    assert(self@[word_a as int][k as int] == word_b);
                }
                return true;
            }
            k += 1;
        }
        false
    }
}

} // verus!
