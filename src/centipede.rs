use vstd::prelude::*;
use crate::words::texts;
use crate::compound::NonCompoundWords;
use crate::successor::SuccessorCache;
use crate::search::{
    chains, closed, grow, grow_all, candidates, prefixed, possible_compound_centipede_with_start,
};

verus! {

/// How deep the search goes and which chain length is kept.
pub struct SearchConfig {
    pub max_depth: u64,
    pub target_length: usize,
}

/// The text of a chain: each word followed by a space.
pub open spec fn line_of(base: Seq<Seq<char>>, chain: Seq<usize>) -> Seq<char>
    decreases chain.len(),
{
    if chain.len() == 0 {
        seq![]
    } else {
        line_of(base, chain.drop_last()) + base[chain.last() as int] + seq![' ']
    }
}

/// The output lines of one root: the chains of its search whose length is the
/// target length, in the order the search found them.
pub open spec fn root_lines(
    base: Seq<Seq<char>>,
    succ: Seq<Seq<usize>>,
    word: usize,
    max_depth: nat,
    target_length: nat,
) -> Seq<Seq<char>> {
    grow(succ, Set::empty(), word, max_depth).0.filter(|c: Seq<usize>| c.len() == target_length).map_values(
        |c: Seq<usize>| line_of(base, c),
    )
}

/// Every word of every chain is below `n`.
pub open spec fn all_below(cs: Seq<Seq<usize>>, n: nat) -> bool {
    forall|i: int, k: int| 0 <= i < cs.len() && 0 <= k < cs[i].len() ==> (#[trigger] cs[i][k] as int) < n
}

proof fn lemma_grow_below(succ: Seq<Seq<usize>>, used: Set<usize>, w: usize, limit: nat, n: nat)
    requires
        closed(succ, n),
        (w as int) < n,
    ensures
        all_below(grow(succ, used, w, limit).0, n),
    decreases limit, 0nat,
{
    if limit > 1 {
        let cands = candidates(succ, used, w);
        assert forall|k: int| 0 <= k < cands.len() implies (#[trigger] cands[k] as int) < n by {
            succ[w as int].lemma_filter_contains_rev(|b: usize| !used.contains(b), cands[k]);
            let x = choose|x: int| 0 <= x < succ[w as int].len() && succ[w as int][x] == cands[k];
            assert((succ[w as int][x] as int) < n);
        }
        let u = used.union(cands.to_set());
        lemma_grow_all_below(succ, u, cands, (limit - 1) as nat, n);
        let sub = grow_all(succ, u, cands, (limit - 1) as nat).0;
        let all = seq![seq![w]] + prefixed(w, sub);
        assert forall|i: int, k: int| 0 <= i < all.len() && 0 <= k < all[i].len() implies (
        #[trigger] all[i][k] as int) < n by {
            if i > 0 {
                assert(all[i] == seq![w] + sub[i - 1]);
                if k > 0 {
                    assert(all[i][k] == sub[i - 1][k - 1]);
                }
            }
        }
    }
}

proof fn lemma_grow_all_below(
    succ: Seq<Seq<usize>>,
    used: Set<usize>,
    ws: Seq<usize>,
    limit: nat,
    n: nat,
)
    requires
        closed(succ, n),
        forall|k: int| 0 <= k < ws.len() ==> (#[trigger] ws[k] as int) < n,
    ensures
        all_below(grow_all(succ, used, ws, limit).0, n),
    decreases limit, ws.len(),
{
    if ws.len() > 0 {
        lemma_grow_all_below(succ, used, ws.drop_last(), limit, n);
        let first = grow_all(succ, used, ws.drop_last(), limit);
        lemma_grow_below(succ, first.1, ws.last(), limit, n);
        let last = grow(succ, first.1, ws.last(), limit);
        let all = first.0 + last.0;
        assert forall|i: int, k: int| 0 <= i < all.len() && 0 <= k < all[i].len() implies (
        #[trigger] all[i][k] as int) < n by {
            if i >= first.0.len() {
                assert(all[i] == last.0[i - first.0.len()]);
            }
        }
    }
}

/// The text of a chain of base words: each word followed by a space.
pub fn chain_line(base: &NonCompoundWords, chain: &Vec<usize>) -> (r: Vec<char>)
    requires
        forall|k: int| 0 <= k < chain@.len() ==> (#[trigger] chain@[k] as int) < base@.len(),
    ensures
        r@ == line_of(base@, chain@),
{
    let mut out: Vec<char> = Vec::new();
    let mut i: usize = 0;
    while i < chain.len()
        invariant
            i <= chain.len(),
            forall|k: int| 0 <= k < chain@.len() ==> (#[trigger] chain@[k] as int) < base@.len(),
            out@ == line_of(base@, chain@.take(i as int)),
        decreases chain.len() - i,
    {
        let w = &base.words[chain[i]];
        let ghost before = out@;
        let mut j: usize = 0;
        while j < w.len()
            invariant
                j <= w.len(),
                out@ == before + w@.take(j as int),
            decreases w.len() - j,
        {
            out.push(w[j]);
            proof {
                assert(out@ =~= before + w@.take(j + 1));
            }
            j += 1;
        }
        out.push(' ');
        proof {
            let c = chain@.take(i + 1);
            assert(c.drop_last() =~= chain@.take(i as int));
            assert(base@[chain@[i as int] as int] == w@);
            assert(w@.take(w@.len() as int) =~= w@);
            assert(out@ =~= before + w@ + seq![' ']);
        }
        i += 1;
    }
    proof {
        assert(chain@.take(chain@.len() as int) =~= chain@);
    }
    out
}

/// The chains of exactly `len` words, in order.
pub fn chains_of_length(all: &Vec<Vec<usize>>, len: usize) -> (r: Vec<Vec<usize>>)
    ensures
        chains(r@) == chains(all@).filter(|c: Seq<usize>| c.len() == len),
{
    let ghost pred = |c: Seq<usize>| c.len() == len;
    let mut out: Vec<Vec<usize>> = Vec::new();
    let mut i: usize = 0;
    while i < all.len()
        invariant
            i <= all.len(),
            pred == (|c: Seq<usize>| c.len() == len),
            chains(out@) == chains(all@).take(i as int).filter(pred),
        decreases all.len() - i,
    {
        proof {
            let t = chains(all@);
            assert(t.take(i + 1) =~= t.take(i as int).push(all@[i as int]@));
            t.take(i as int).lemma_filter_push(all@[i as int]@, pred);
        }
        if all[i].len() == len {
            let c = copy_chain(&all[i]);
            let ghost prev = chains(out@);
            out.push(c);
            proof {
                assert(chains(out@) =~= prev.push(all@[i as int]@));
            }
        }
        i += 1;
    }
    proof {
        assert(chains(all@).take(all@.len() as int) =~= chains(all@));
    }
    out
}

fn copy_chain(c: &Vec<usize>) -> (r: Vec<usize>)
    ensures
        r@ == c@,
{
    let mut out: Vec<usize> = Vec::new();
    let mut i: usize = 0;
    while i < c.len()
        invariant
            i <= c.len(),
            out@ == c@.take(i as int),
        decreases c.len() - i,
    {
        out.push(c[i]);
        proof {
            assert(out@ =~= c@.take(i + 1));
        }
        i += 1;
    }
    proof {
        assert(c@.take(c@.len() as int) =~= c@);
    }
    out
}

/// The output lines of the search from the base word at position `word`: the
/// chains of the target length, each as its words followed by spaces.
pub fn lines_for_root(
    successor_cache: &SuccessorCache,
    base: &NonCompoundWords,
    word: usize,
    config: &SearchConfig,
) -> (r: Vec<Vec<char>>)
    requires
        successor_cache.wf(base@.len()),
        (word as int) < base@.len(),
        config.max_depth >= 1,
    ensures
        texts(r@) == root_lines(
            base@,
            successor_cache@,
            word,
            config.max_depth as nat,
            config.target_length as nat,
        ),
{
    let all = possible_compound_centipede_with_start(successor_cache, word, config.max_depth);
    proof {
        lemma_grow_below(successor_cache@, Set::empty(), word, config.max_depth as nat, base@.len());
    }
    let kept = chains_of_length(&all, config.target_length);
    let ghost sel = chains(kept@);
    let mut out: Vec<Vec<char>> = Vec::new();
    let mut i: usize = 0;
    while i < kept.len()
        invariant
            i <= kept.len(),
            sel == chains(kept@),
            all_below(chains(all@), base@.len()),
            sel == chains(all@).filter(|c: Seq<usize>| c.len() == config.target_length),
            texts(out@) == sel.take(i as int).map_values(|c: Seq<usize>| line_of(base@, c)),
        decreases kept.len() - i,
    {
        proof {
            assert(sel[i as int] == kept@[i as int]@);
            assert(sel.contains(sel[i as int]));
            chains(all@).lemma_filter_contains_rev(
                |c: Seq<usize>| c.len() == config.target_length,
                sel[i as int],
            );
            let j = choose|j: int| 0 <= j < chains(all@).len() && chains(all@)[j] == sel[i as int];
            assert forall|k: int| 0 <= k < kept@[i as int]@.len() implies (#[trigger] kept@[i as int]@[k] as int) < base@.len() by {
                assert(chains(all@)[j][k] == kept@[i as int]@[k]);
            }
        }
        let line = chain_line(base, &kept[i]);
        let ghost prev = texts(out@);
        out.push(line);
        proof {
            assert(texts(out@) =~= prev.push(line@));
            assert(sel.take(i + 1).map_values(|c: Seq<usize>| line_of(base@, c)) =~= sel.take(
                i as int,
            ).map_values(|c: Seq<usize>| line_of(base@, c)).push(line_of(base@, sel[i as int])));
        }
        i += 1;
    }
    proof {
        assert(sel.take(sel.len() as int) =~= sel);
    }
    out
}

} // verus!
