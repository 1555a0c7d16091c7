use vstd::prelude::*;
use crate::words::{texts, copy_range, same_word, contains_word};
use crate::index::{WordCharMap, decomposition, law_no_self_match};

verus! {

/// A compound word and its components.
pub struct CompoundWord {
    pub word: Vec<char>,
    pub parts: Vec<Vec<char>>,
}

/// The compound words of an index, each with its components flattened to base words.
pub struct CompoundWords {
    pub entries: Vec<CompoundWord>,
}

/// Every word of the index that decomposes, with its decomposition.
pub open spec fn raw_map(lex: Seq<Seq<char>>) -> Map<Seq<char>, Seq<Seq<char>>> {
    Map::new(
        |w: Seq<char>| lex.contains(w) && decomposition(lex, w).is_some(),
        |w: Seq<char>| decomposition(lex, w).unwrap(),
    )
}

/// Replaces, left to right, each component shorter than `bound` that is itself a
/// key of `m` by the flattening of its own components.
pub open spec fn flat_list(m: Map<Seq<char>, Seq<Seq<char>>>, cs: Seq<Seq<char>>, bound: nat) -> Seq<
    Seq<char>,
>
    decreases bound, cs.len(),
{
    if cs.len() == 0 {
        seq![]
    } else {
        let c = cs.last();
        flat_list(m, cs.drop_last(), bound) + if m.dom().contains(c) && c.len() < bound {
            flat_list(m, m[c], c.len())
        } else {
            seq![c]
        }
    }
}

/// The compound map: each compound word of the index with its flattened components.
pub open spec fn compound_map(lex: Seq<Seq<char>>) -> Map<Seq<char>, Seq<Seq<char>>> {
    Map::new(
        |w: Seq<char>| raw_map(lex).dom().contains(w),
        |w: Seq<char>| flat_list(raw_map(lex), raw_map(lex)[w], w.len()),
    )
}

/// The entries list each key of `m` once, with its value.
pub open spec fn entries_model(e: Seq<CompoundWord>, m: Map<Seq<char>, Seq<Seq<char>>>) -> bool {
    &&& forall|i: int|
        0 <= i < e.len() ==> m.dom().contains(#[trigger] e[i].word@) && m[e[i].word@] == texts(
            e[i].parts@,
        )
    &&& forall|w: Seq<char>| #[trigger]
        m.dom().contains(w) ==> exists|i: int| 0 <= i < e.len() && e[i].word@ == w
    &&& forall|i: int, j: int|
        0 <= i < e.len() && 0 <= j < e.len() && i != j ==> #[trigger] e[i].word@ != #[trigger] e[j].word@
}

/// The base words of a compound map: those that occur among its components.
pub open spec fn base_words(m: Map<Seq<char>, Seq<Seq<char>>>) -> Set<Seq<char>> {
    Set::new(|c: Seq<char>| exists|w: Seq<char>| #[trigger] m.dom().contains(w) && m[w].contains(c))
}

/// Each key's components are shorter than the key.
pub open spec fn parts_shorter(m: Map<Seq<char>, Seq<Seq<char>>>) -> bool {
    forall|w: Seq<char>, k: int|
        #[trigger] m.dom().contains(w) && 0 <= k < m[w].len() ==> #[trigger] m[w][k].len() < w.len()
}

proof fn lemma_flat_list_base(m: Map<Seq<char>, Seq<Seq<char>>>, cs: Seq<Seq<char>>, bound: nat)
    requires
        parts_shorter(m),
        forall|k: int| 0 <= k < cs.len() ==> #[trigger] cs[k].len() < bound,
    ensures
        forall|k: int|
            0 <= k < flat_list(m, cs, bound).len() ==> !m.dom().contains(
                #[trigger] flat_list(m, cs, bound)[k],
            ),
    decreases bound, cs.len(),
{
    if cs.len() > 0 {
        let c = cs.last();
        lemma_flat_list_base(m, cs.drop_last(), bound);
        let head = flat_list(m, cs.drop_last(), bound);
        let tail = if m.dom().contains(c) && c.len() < bound {
            flat_list(m, m[c], c.len())
        } else {
            seq![c]
        };
        if m.dom().contains(c) {
            assert forall|k: int| 0 <= k < m[c].len() implies #[trigger] m[c][k].len() < c.len() by {
                assert(m.dom().contains(c) && 0 <= k < m[c].len());
            }
            lemma_flat_list_base(m, m[c], c.len());
        }
        assert forall|k: int| 0 <= k < (head + tail).len() implies !m.dom().contains(
            #[trigger] (head + tail)[k],
        ) by {
            if k >= head.len() {
                assert((head + tail)[k] == tail[k - head.len()]);
            }
        }
    }
}

proof fn lemma_raw_parts_shorter(lex: Seq<Seq<char>>)
    ensures
        parts_shorter(raw_map(lex)),
{
    let m = raw_map(lex);
    assert forall|w: Seq<char>, k: int|
        #[trigger] m.dom().contains(w) && 0 <= k < m[w].len() implies #[trigger] m[w][k].len()
        < w.len() by {
        law_no_self_match(lex, w);
    }
}

/// After flattening, no component of a compound word is itself a compound word.
pub proof fn law_flattening_total(lex: Seq<Seq<char>>)
    ensures
        forall|w: Seq<char>, k: int|
            #[trigger] compound_map(lex).dom().contains(w) && 0 <= k < compound_map(lex)[w].len()
                ==> !compound_map(lex).dom().contains(#[trigger] compound_map(lex)[w][k]),
{
    let m = raw_map(lex);
    lemma_raw_parts_shorter(lex);
    assert forall|w: Seq<char>, k: int|
        #[trigger] compound_map(lex).dom().contains(w) && 0 <= k < compound_map(lex)[w].len()
        implies !compound_map(lex).dom().contains(#[trigger] compound_map(lex)[w][k]) by {
        assert forall|j: int| 0 <= j < m[w].len() implies #[trigger] m[w][j].len() < w.len() by {
            assert(m.dom().contains(w) && 0 <= j < m[w].len());
        }
        lemma_flat_list_base(m, m[w], w.len());
        assert(compound_map(lex)[w] == flat_list(m, m[w], w.len()));
    }
}

/// Where `w` is the word of an entry, its position.
pub fn find_entry(e: &Vec<CompoundWord>, w: &Vec<char>) -> (r: Option<usize>)
    ensures
        r matches Some(i) ==> i < e@.len() && e@[i as int].word@ == w@,
        r is None ==> forall|i: int| 0 <= i < e@.len() ==> #[trigger] e@[i].word@ != w@,
{
    let mut i: usize = 0;
    while i < e.len()
        invariant
            i <= e.len(),
            forall|j: int| 0 <= j < i ==> #[trigger] e@[j].word@ != w@,
        decreases e.len() - i,
    {
        if same_word(&e[i].word, w) {
            return Some(i);
        }
        i += 1;
    }
    None
}

fn flatten(
    raw: &Vec<CompoundWord>,
    parts: &Vec<Vec<char>>,
    bound: usize,
    Ghost(m): Ghost<Map<Seq<char>, Seq<Seq<char>>>>,
) -> (r: Vec<Vec<char>>)
    requires
        entries_model(raw@, m),
    ensures
        texts(r@) == flat_list(m, texts(parts@), bound as nat),
    decreases bound,
{
    let mut out: Vec<Vec<char>> = Vec::new();
    let mut k: usize = 0;
    while k < parts.len()
        invariant
            entries_model(raw@, m),
            k <= parts.len(),
            texts(out@) == flat_list(m, texts(parts@).take(k as int), bound as nat),
        decreases parts.len() - k,
    {
        let c = &parts[k];
        let ghost before = texts(out@);
        let ghost cs = texts(parts@).take(k + 1);
        proof {
            assert(cs.drop_last() =~= texts(parts@).take(k as int));
            assert(cs.last() == c@);
        }
        let found = find_entry(raw, c);
        let mut expand = false;
        if let Some(i) = found {
            if c.len() < bound {
                expand = true;
                let mut sub = flatten(raw, &raw[i].parts, c.len(), Ghost(m));
                let ghost sv = texts(sub@);
                out.append(&mut sub);
                proof {
                    assert(texts(out@) =~= before + sv);
                }
            }
        }
        if !expand {
            proof {
                if m.dom().contains(c@) {
                    let i = choose|i: int| 0 <= i < raw@.len() && raw@[i].word@ == c@;
                    assert(raw@[i].word@ == c@);
                }
            }
            out.push(copy_range(c, 0, c.len()));
            proof {
                assert(c@.subrange(0, c@.len() as int) =~= c@);
                assert(texts(out@) =~= before + seq![c@]);
            }
        }
        k += 1;
    }
    proof {
        assert(texts(parts@).take(parts@.len() as int) =~= texts(parts@));
    }
    out
}

/// The base words of a compound map, as a list without repeats.
pub struct NonCompoundWords {
    pub words: Vec<Vec<char>>,
}

impl View for NonCompoundWords {
    type V = Seq<Seq<char>>;

    open spec fn view(&self) -> Seq<Seq<char>> {
        texts(self.words@)
    }
}

impl View for CompoundWords {
    type V = Map<Seq<char>, Seq<Seq<char>>>;

    open spec fn view(&self) -> Map<Seq<char>, Seq<Seq<char>>> {
        Map::new(
            |w: Seq<char>| exists|i: int| 0 <= i < self.entries@.len() && self.entries@[i].word@ == w,
            |w: Seq<char>|
                texts(
                    self.entries@[choose|i: int|
                        0 <= i < self.entries@.len() && self.entries@[i].word@ == w].parts@,
                ),
        )
    }
}

/// The components seen in `e` before component `j` of entry `i`.
pub open spec fn seen(e: Seq<CompoundWord>, i: int, j: int) -> Set<Seq<char>> {
    Set::new(
        |c: Seq<char>|
            exists|a: int, b: int|
                0 <= a < e.len() && 0 <= b < e[a].parts@.len() && (a < i || (a == i && b < j))
                    && #[trigger] e[a].parts@[b]@ == c,
    )
}

impl NonCompoundWords {
    /// Gathers every word that occurs as a component of a compound word.
    pub fn new(compound_words: &CompoundWords) -> (r: NonCompoundWords)
        requires
            compound_words.wf(),
        ensures
            r@.no_duplicates(),
            r@.to_set() == base_words(compound_words@),
    {
        let e = &compound_words.entries;
        let mut out: Vec<Vec<char>> = Vec::new();
        let mut i: usize = 0;
        while i < e.len()
            invariant
                i <= e.len(),
                texts(out@).no_duplicates(),
                texts(out@).to_set() == seen(e@, i as int, 0),
            decreases e.len() - i,
        {
            let parts = &e[i].parts;
            let mut j: usize = 0;
            while j < parts.len()
                invariant
                    i < e.len(),
                    parts == e@[i as int].parts,
                    j <= parts.len(),
                    texts(out@).no_duplicates(),
                    texts(out@).to_set() == seen(e@, i as int, j as int),
                decreases parts.len() - j,
            {
                let ghost before = texts(out@);
                let ghost x = parts@[j as int]@;
                proof {
                    assert(seen(e@, i as int, j + 1) =~= seen(e@, i as int, j as int).insert(x)) by {
                        assert forall|c: Seq<char>| seen(e@, i as int, j + 1).contains(c) implies
                            seen(e@, i as int, j as int).insert(x).contains(c) by {
                            let (a, b) = choose|a: int, b: int|
                                0 <= a < e@.len() && 0 <= b < e@[a].parts@.len() && (a < i || (a == i
                                    && b < j + 1)) && #[trigger] e@[a].parts@[b]@ == c;
                            if !(a == i && b == j) {
                                assert(seen(e@, i as int, j as int).contains(c));
                            }
                        }
                        assert forall|c: Seq<char>| seen(e@, i as int, j as int).insert(x).contains(c)
                            implies seen(e@, i as int, j + 1).contains(c) by {
                            if c == x {
                                assert(e@[i as int].parts@[j as int]@ == c);
                            } else {
                                let (a, b) = choose|a: int, b: int|
                                    0 <= a < e@.len() && 0 <= b < e@[a].parts@.len() && (a < i || (a
                                        == i && b < j)) && #[trigger] e@[a].parts@[b]@ == c;
                            }
                        }
                    }
                }
                if !contains_word(&out, &parts[j]) {
                    out.push(copy_range(&parts[j], 0, parts[j].len()));
                    proof {
                        assert(parts@[j as int]@.subrange(0, x.len() as int) =~= x);
                        assert(texts(out@) =~= before.push(x));
                        before.lemma_push_to_set_commute(x);
                        assert forall|a: int, b: int|
                            0 <= a < texts(out@).len() && 0 <= b < texts(out@).len() && a != b implies
                            texts(out@)[a] != texts(out@)[b] by {
                            if a == before.len() {
                                assert(before.contains(before[b]));
                            } else if b == before.len() {
                                assert(before.contains(before[a]));
                            }
                        }
                    }
                } else {
                    proof {
                        assert(before.to_set().contains(x));
                        assert(before.to_set().insert(x) =~= before.to_set());
                    }
                }
                j += 1;
            }
            proof {
                assert(seen(e@, i as int, j as int) =~= seen(e@, i + 1, 0));
            }
            i += 1;
        }
        proof {
            lemma_seen_all(compound_words);
        }
        NonCompoundWords { words: out }
    }
}

proof fn lemma_seen_all(cw: &CompoundWords)
    requires
        cw.wf(),
    ensures
        seen(cw.entries@, cw.entries@.len() as int, 0) == base_words(cw@),
{
    let e = cw.entries@;
    let m = cw@;
    assert forall|c: Seq<char>| seen(e, e.len() as int, 0).contains(c) implies base_words(m).contains(
        c,
    ) by {
        let (a, b) = choose|a: int, b: int|
            0 <= a < e.len() && 0 <= b < e[a].parts@.len() && (a < e.len() || (a == e.len() && b < 0))
                && #[trigger] e[a].parts@[b]@ == c;
        let w = e[a].word@;
        assert(m.dom().contains(w));
        let k = choose|i: int| 0 <= i < e.len() && e[i].word@ == w;
        assert(k == a);
        assert(texts(e[a].parts@)[b] == c);
        assert(m[w].contains(c));
    }
    assert forall|c: Seq<char>| base_words(m).contains(c) implies seen(e, e.len() as int, 0).contains(
        c,
    ) by {
        let w = choose|w: Seq<char>| #[trigger] m.dom().contains(w) && m[w].contains(c);
        let k = choose|i: int| 0 <= i < e.len() && e[i].word@ == w;
        let b = choose|b: int| 0 <= b < m[w].len() && m[w][b] == c;
        assert(e[k].parts@[b]@ == c);
    }
    assert(seen(e, e.len() as int, 0) =~= base_words(m));
}

proof fn lemma_view_of_entries(cw: &CompoundWords, m: Map<Seq<char>, Seq<Seq<char>>>)
    requires
        entries_model(cw.entries@, m),
    ensures
        cw.wf(),
        cw@ == m,
{
    let e = cw.entries@;
    assert forall|w: Seq<char>| #[trigger] cw@.dom().contains(w) <==> m.dom().contains(w) by {
        if cw@.dom().contains(w) {
            let k = choose|i: int| 0 <= i < e.len() && e[i].word@ == w;
            assert(m.dom().contains(e[k].word@));
        }
    }
    assert forall|w: Seq<char>| #[trigger] cw@.dom().contains(w) implies cw@[w] == m[w] by {
        let k = choose|i: int| 0 <= i < e.len() && e[i].word@ == w;
        assert(m.dom().contains(e[k].word@));
    }
    assert(cw@ =~= m);
}

impl CompoundWords {
    /// No word is listed twice.
    pub open spec fn wf(&self) -> bool {
        forall|i: int, j: int|
            0 <= i < self.entries@.len() && 0 <= j < self.entries@.len() && i != j
                ==> #[trigger] self.entries@[i].word@ != #[trigger] self.entries@[j].word@
    }

    /// Finds every compound word of the index and flattens each one's components
    /// down to base words.
    pub fn new(index: &WordCharMap) -> (r: CompoundWords)
        requires
            index.wf(),
        ensures
            r.wf(),
            r@ == compound_map(index@),
    {
        let ghost lex = index@;
        let ghost raw_m = raw_map(lex);
        let mut raw: Vec<CompoundWord> = Vec::new();
        let mut i: usize = 0;
        while i < index.words.len()
            invariant
                index.wf(),
                lex == index@,
                raw_m == raw_map(lex),
                i <= index.words.len(),
                forall|a: int|
                    0 <= a < raw@.len() ==> raw_m.dom().contains(#[trigger] raw@[a].word@)
                        && raw_m[raw@[a].word@] == texts(raw@[a].parts@),
                forall|j: int|
                    0 <= j < i && #[trigger] raw_m.dom().contains(lex[j]) ==> exists|a: int|
                        0 <= a < raw@.len() && raw@[a].word@ == lex[j],
                forall|a: int, b: int|
                    0 <= a < raw@.len() && 0 <= b < raw@.len() && a != b
                        ==> #[trigger] raw@[a].word@ != #[trigger] raw@[b].word@,
            decreases index.words.len() - i,
        {
            let w = &index.words[i];
            proof {
                assert(lex[i as int] == w@);
                assert(lex[i as int].len() > 0);
            }
            let ghost prev = raw@;
            let present = find_entry(&raw, w);
            if present.is_none() {
                let d = index.decompose(w);
                if let Some(parts) = d {
                    let entry = CompoundWord { word: copy_range(w, 0, w.len()), parts };
                    proof {
                        assert(w@.subrange(0, w@.len() as int) =~= w@);
                        assert(lex.contains(w@));
                    }
                    raw.push(entry);
                    proof {
                        assert(raw@[prev.len() as int].word@ == lex[i as int]);
                    }
                }
            } else {
                proof {
                    let a = present.unwrap() as int;
                    assert(raw@[a].word@ == lex[i as int]);
                }
            }
            proof {
                assert forall|j: int|
                    0 <= j < i + 1 && #[trigger] raw_m.dom().contains(lex[j]) implies exists|a: int|
                        0 <= a < raw@.len() && raw@[a].word@ == lex[j] by {
                    if j < i {
                        let a = choose|a: int| 0 <= a < prev.len() && prev[a].word@ == lex[j];
                        assert(raw@[a] == prev[a]);
                    }
                }
            }
            i += 1;
        }
        proof {
            assert forall|w: Seq<char>| #[trigger] raw_m.dom().contains(w) implies exists|a: int|
                0 <= a < raw@.len() && raw@[a].word@ == w by {
                let j = choose|j: int| 0 <= j < lex.len() && lex[j] == w;
                assert(raw_m.dom().contains(lex[j]));
            }
        }
        let ghost cm = compound_map(lex);
        let mut out: Vec<CompoundWord> = Vec::new();
        let mut k: usize = 0;
        while k < raw.len()
            invariant
                entries_model(raw@, raw_m),
                raw_m == raw_map(lex),
                cm == compound_map(lex),
                k <= raw.len(),
                out@.len() == k,
                forall|a: int|
                    0 <= a < k ==> (#[trigger] out@[a]).word@ == raw@[a].word@ && texts(
                        out@[a].parts@,
                    ) == cm[raw@[a].word@],
            decreases raw.len() - k,
        {
            let word = copy_range(&raw[k].word, 0, raw[k].word.len());
            let parts = flatten(&raw, &raw[k].parts, raw[k].word.len(), Ghost(raw_m));
            proof {
                assert(raw@[k as int].word@.subrange(0, raw@[k as int].word@.len() as int)
                    =~= raw@[k as int].word@);
            }
            out.push(CompoundWord { word, parts });
            k += 1;
        }
        proof {
            assert forall|w: Seq<char>| #[trigger] cm.dom().contains(w) implies exists|a: int|
                0 <= a < out@.len() && out@[a].word@ == w by {
                let a = choose|a: int| 0 <= a < raw@.len() && raw@[a].word@ == w;
                assert(out@[a].word@ == w);
            }
            assert forall|a: int, b: int|
                0 <= a < out@.len() && 0 <= b < out@.len() && a != b implies
                #[trigger] out@[a].word@ != #[trigger] out@[b].word@ by {
                assert(raw@[a].word@ != raw@[b].word@);
            }
        }
        let r = CompoundWords { entries: out };
        proof {
            lemma_view_of_entries(&r, cm);
        }
        r
    }
}

} // verus!
