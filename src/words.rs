use vstd::prelude::*;

verus! {

/// The character sequences held by a list of words.
pub open spec fn texts(v: Seq<Vec<char>>) -> Seq<Seq<char>> {
    v.map_values(|x: Vec<char>| x@)
}

/// The reduplication-prefix sequence that marks a word to be left out.
pub open spec fn kra() -> Seq<char> {
    seq!['\u{0E01}', '\u{0E23}', '\u{0E30}']
}

/// Whether `pat` occurs in `w` as a contiguous run.
pub open spec fn has_run(w: Seq<char>, pat: Seq<char>) -> bool {
    exists|i: int| 0 <= i && i + pat.len() <= w.len() && #[trigger] w.subrange(i, i + pat.len()) == pat
}

/// Whether a dictionary entry takes part in decomposition: no space, more than one
/// character, no repetition mark, no hyphen and no reduplication prefix.
pub open spec fn kept(w: Seq<char>) -> bool {
    &&& !w.contains(' ')
    &&& w.len() > 1
    &&& !w.contains('\u{0E46}')
    &&& !w.contains('-')
    &&& !has_run(w, kra())
}

pub fn contains_char(w: &Vec<char>, c: char) -> (r: bool)
    ensures
        r == w@.contains(c),
{
    let mut i: usize = 0;
    while i < w.len()
        invariant
            i <= w.len(),
            forall|j: int| 0 <= j < i ==> w@[j] != c,
        decreases w.len() - i,
    {
        if w[i] == c {
            return true;
        }
        i += 1;
    }
    false
}

fn contains_kra(w: &Vec<char>) -> (r: bool)
    ensures
        r == has_run(w@, kra()),
{
    if w.len() < 3 {
        proof {
            assert forall|i: int| 0 <= i && i + kra().len() <= w@.len() implies
                #[trigger] w@.subrange(i, i + kra().len()) != kra() by {}
        }
        return false;
    }
    let mut i: usize = 0;
    while i < w.len() - 2
        invariant
            w.len() >= 3,
            i <= w.len() - 2,
            forall|j: int| 0 <= j < i ==> #[trigger] w@.subrange(j, j + 3) != kra(),
        decreases w.len() - i,
    {
        if w[i] == '\u{0E01}' && w[i + 1] == '\u{0E23}' && w[i + 2] == '\u{0E30}' {
            proof {
                assert(w@.subrange(i as int, i + 3) =~= kra());
            }
            return true;
        }
        proof {
            let s = w@.subrange(i as int, i + 3);
            if s == kra() {
                assert(s[0] == w@[i as int] && s[1] == w@[i + 1] && s[2] == w@[i + 2]);
            }
        }
        i += 1;
    }
    false
}

/// Tells whether a raw dictionary entry is kept for decomposition.
pub fn keep_word(w: &Vec<char>) -> (r: bool)
    ensures
        r == kept(w@),
{
    !contains_char(w, ' ') && w.len() > 1 && !contains_char(w, '\u{0E46}') && !contains_char(
        w,
        '-',
    ) && !contains_kra(w)
}

/// Keeps, in their order, the dictionary entries that take part in decomposition.
pub fn filter_words(words: &Vec<Vec<char>>) -> (r: Vec<Vec<char>>)
    ensures
        texts(r@) == texts(words@).filter(|w: Seq<char>| kept(w)),
{
    let mut out: Vec<Vec<char>> = Vec::new();
    let mut i: usize = 0;
    while i < words.len()
        invariant
            i <= words.len(),
            texts(out@) == texts(words@).take(i as int).filter(|w: Seq<char>| kept(w)),
        decreases words.len() - i,
    {
        let w = copy_range(&words[i], 0, words[i].len());
        let keep = keep_word(&w);
        proof {
            let t = texts(words@);
            assert(t.take(i + 1) =~= t.take(i as int).push(t[i as int]));
            assert(t[i as int] == w@);
            t.take(i as int).lemma_filter_push(t[i as int], |w: Seq<char>| kept(w));
            assert(t.take(i + 1).filter(|w: Seq<char>| kept(w)) == if kept(w@) {
                t.take(i as int).filter(|w: Seq<char>| kept(w)).push(w@)
            } else {
                t.take(i as int).filter(|w: Seq<char>| kept(w))
            });
        }
        if keep {
            let ghost before = out@;
            out.push(w);
            proof {
                assert(texts(out@) =~= texts(before).push(w@));
            }
        }
        i += 1;
    }
    proof {
        assert(texts(words@).take(words.len() as int) =~= texts(words@));
    }
    out
}

/// Copies the characters `w[start..end]`.
pub fn copy_range(w: &Vec<char>, start: usize, end: usize) -> (r: Vec<char>)
    requires
        start <= end <= w.len(),
    ensures
        r@ == w@.subrange(start as int, end as int),
{
    let mut out: Vec<char> = Vec::new();
    let mut i: usize = start;
    while i < end
        invariant
            start <= i <= end <= w.len(),
            out@ == w@.subrange(start as int, i as int),
        decreases end - i,
    {
        out.push(w[i]);
        proof {
            assert(out@ =~= w@.subrange(start as int, i + 1));
        }
        i += 1;
    }
    out
}

/// Whether `cand` spells exactly `w[start..end]`.
pub fn range_is(w: &Vec<char>, start: usize, end: usize, cand: &Vec<char>) -> (r: bool)
    requires
        start <= end <= w.len(),
    ensures
        r == (cand@ == w@.subrange(start as int, end as int)),
{
    if cand.len() != end - start {
        return false;
    }
    let mut i: usize = 0;
    while i < cand.len()
        invariant
            start <= end <= w.len(),
            cand.len() == end - start,
            i <= cand.len(),
            forall|j: int| 0 <= j < i ==> cand@[j] == w@[start + j],
        decreases cand.len() - i,
    {
        if cand[i] != w[start + i] {
            proof {
                assert(w@.subrange(start as int, end as int)[i as int] == w@[start + i]);
            }
            return false;
        }
        i += 1;
    }
    proof {
        assert(cand@ =~= w@.subrange(start as int, end as int));
    }
    true
}

/// Whether two words hold the same characters.
pub fn same_word(a: &Vec<char>, b: &Vec<char>) -> (r: bool)
    ensures
        r == (a@ == b@),
{
    let r = range_is(b, 0, b.len(), a);
    proof {
        assert(b@.subrange(0, b@.len() as int) =~= b@);
    }
    r
}

/// Whether `w` is one of the words of `v`.
pub fn contains_word(v: &Vec<Vec<char>>, w: &Vec<char>) -> (r: bool)
    ensures
        r == texts(v@).contains(w@),
{
    let mut i: usize = 0;
    while i < v.len()
        invariant
            i <= v.len(),
            forall|j: int| 0 <= j < i ==> texts(v@)[j] != w@,
        decreases v.len() - i,
    {
        if same_word(&v[i], w) {
            proof {
                assert(texts(v@)[i as int] == w@);
            }
            return true;
        }
        i += 1;
    }
    false
}

} // verus!
