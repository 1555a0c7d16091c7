use vstd::prelude::*;
use crate::successor::SuccessorCache;

verus! {

/// The chains held by a list of chains.
pub open spec fn chains(v: Seq<Vec<usize>>) -> Seq<Seq<usize>> {
    v.map_values(|c: Vec<usize>| c@)
}

/// The words marked in an exclusion vector.
pub open spec fn used_set(u: Seq<bool>) -> Set<usize> {
    Set::new(|i: usize| (i as int) < u.len() && u[i as int])
}

/// The successors of `w` not yet excluded, in successor order.
pub open spec fn candidates(succ: Seq<Seq<usize>>, used: Set<usize>, w: usize) -> Seq<usize> {
    succ[w as int].filter(|b: usize| !used.contains(b))
}

/// Each chain with `w` put in front.
pub open spec fn prefixed(w: usize, cs: Seq<Seq<usize>>) -> Seq<Seq<usize>> {
    cs.map_values(|c: Seq<usize>| seq![w] + c)
}

/// The chains of the search tree rooted at `w` with depth budget `limit`, one per
/// node, and the exclusion set after the build. Below the last level, every
/// candidate is excluded before any of them is explored; siblings are then built
/// in order, each seeing what the earlier ones excluded.
pub open spec fn grow(succ: Seq<Seq<usize>>, used: Set<usize>, w: usize, limit: nat) -> (
    Seq<Seq<usize>>,
    Set<usize>,
)
    decreases limit, 0nat,
{
    if limit <= 1 {
        (seq![seq![w]], used)
    } else {
        let cands = candidates(succ, used, w);
        let sub = grow_all(succ, used.union(cands.to_set()), cands, (limit - 1) as nat);
        (seq![seq![w]] + prefixed(w, sub.0), sub.1)
    }
}

/// The chains of the sibling trees rooted at `ws`, built left to right with one
/// shared exclusion set, and that set afterwards.
pub open spec fn grow_all(succ: Seq<Seq<usize>>, used: Set<usize>, ws: Seq<usize>, limit: nat) -> (
    Seq<Seq<usize>>,
    Set<usize>,
)
    decreases limit, ws.len(),
{
    if ws.len() == 0 {
        (seq![], used)
    } else {
        let first = grow_all(succ, used, ws.drop_last(), limit);
        let last = grow(succ, first.1, ws.last(), limit);
        (first.0 + last.0, last.1)
    }
}

fn single(w: usize) -> (r: Vec<usize>)
    ensures
        r@ == seq![w],
{
    let mut out: Vec<usize> = Vec::new();
    out.push(w);
    proof {
        assert(out@ =~= seq![w]);
    }
    out
}

fn prefix_chain(w: usize, c: &Vec<usize>) -> (r: Vec<usize>)
    ensures
        r@ == seq![w] + c@,
{
    let mut out: Vec<usize> = Vec::new();
    out.push(w);
    let mut i: usize = 0;
    while i < c.len()
        invariant
            i <= c.len(),
            out@ == seq![w] + c@.take(i as int),
        decreases c.len() - i,
    {
        out.push(c[i]);
        proof {
            assert(out@ =~= seq![w] + c@.take(i + 1));
        }
        i += 1;
    }
    proof {
        assert(c@.take(c@.len() as int) =~= c@);
    }
    out
}

/// Builds the search tree rooted at `word` with depth budget `limit`, excluding
/// words in `used_word` as it goes, and returns its chains: one per node, the
/// path from the root to it.
pub fn new_from_cache(
    successor_cache: &SuccessorCache,
    used_word: &mut Vec<bool>,
    word: usize,
    limit: u64,
) -> (r: Vec<Vec<usize>>)
    requires
        successor_cache.wf(old(used_word)@.len() as nat),
        (word as int) < old(used_word)@.len(),
        limit >= 1,
    ensures
        final(used_word)@.len() == old(used_word)@.len(),
        chains(r@) == grow(successor_cache@, used_set(old(used_word)@), word, limit as nat).0,
        used_set(final(used_word)@) == grow(
            successor_cache@,
            used_set(old(used_word)@),
            word,
            limit as nat,
        ).1,
    decreases limit,
{
    let ghost n = used_word@.len();
    let ghost sv = successor_cache@;
    let ghost u0 = used_set(used_word@);
    if limit == 1 {
        let mut r: Vec<Vec<usize>> = Vec::new();
        r.push(single(word));
        proof {
            assert(chains(r@) =~= seq![seq![word]]);
        }
        return r;
    }
    let row = &successor_cache.nexts[word];
    proof {
        assert(row@ == sv[word as int]);
    }
    let ghost pred = |b: usize| !u0.contains(b);
    let mut cands: Vec<usize> = Vec::new();
    let mut j: usize = 0;
    while j < row.len()
        invariant
            successor_cache.wf(n as nat),
            used_word@.len() == n,
            u0 == used_set(used_word@),
            (word as int) < n,
            row@ == sv[word as int],
            sv == successor_cache@,
            pred == (|b: usize| !u0.contains(b)),
            j <= row.len(),
            cands@ == row@.take(j as int).filter(pred),
            forall|k: int| 0 <= k < cands@.len() ==> (#[trigger] cands@[k] as int) < n,
        decreases row.len() - j,
    {
        let b = row[j];
        proof {
            assert(sv[word as int][j as int] == b);
            assert((b as int) < n);
            assert(row@.take(j + 1) =~= row@.take(j as int).push(b));
            row@.take(j as int).lemma_filter_push(b, pred);
        }
        if !used_word[b] {
            cands.push(b);
        }
        j += 1;
    }
    proof {
        assert(row@.take(row@.len() as int) =~= row@);
        assert(cands@ == candidates(sv, u0, word));
    }
    let mut k: usize = 0;
    while k < cands.len()
        invariant
            used_word@.len() == n,
            k <= cands.len(),
            forall|x: int| 0 <= x < cands@.len() ==> (#[trigger] cands@[x] as int) < n,
            used_set(used_word@) == u0.union(cands@.take(k as int).to_set()),
        decreases cands.len() - k,
    {
        let c = cands[k];
        let ghost before = used_word@;
        used_word.set(c, true);
        proof {
            assert(used_set(used_word@) =~= used_set(before).insert(c));
            assert(cands@.take(k + 1) =~= cands@.take(k as int).push(c));
            cands@.take(k as int).lemma_push_to_set_commute(c);
            assert(u0.union(cands@.take(k + 1).to_set()) =~= u0.union(
                cands@.take(k as int).to_set(),
            ).insert(c));
        }
        k += 1;
    }
    proof {
        assert(cands@.take(cands@.len() as int) =~= cands@);
    }
    let ghost u1 = used_set(used_word@);
    let ghost lim = (limit - 1) as nat;
    let mut out: Vec<Vec<usize>> = Vec::new();
    out.push(single(word));
    proof {
        assert(cands@.take(0).len() == 0);
        assert(prefixed(word, grow_all(sv, u1, cands@.take(0), lim).0) =~= seq![]);
        assert(chains(out@) =~= seq![seq![word]] + prefixed(
            word,
            grow_all(sv, u1, cands@.take(0), lim).0,
        ));
    }
    let mut k: usize = 0;
    while k < cands.len()
        invariant
            successor_cache.wf(n as nat),
            sv == successor_cache@,
            used_word@.len() == n,
            limit >= 2,
            lim == (limit - 1) as nat,
            k <= cands.len(),
            forall|x: int| 0 <= x < cands@.len() ==> (#[trigger] cands@[x] as int) < n,
            chains(out@) == seq![seq![word]] + prefixed(
                word,
                grow_all(sv, u1, cands@.take(k as int), lim).0,
            ),
            used_set(used_word@) == grow_all(sv, u1, cands@.take(k as int), lim).1,
        decreases cands.len() - k,
    {
        let ghost ws = cands@.take(k + 1);
        proof {
            assert(ws.drop_last() =~= cands@.take(k as int));
            assert(ws.last() == cands@[k as int]);
        }
        let sub = new_from_cache(successor_cache, used_word, cands[k], limit - 1);
        let ghost base = chains(out@);
        let mut t: usize = 0;
        while t < sub.len()
            invariant
                t <= sub.len(),
                chains(out@) == base + prefixed(word, chains(sub@).take(t as int)),
            decreases sub.len() - t,
        {
            let line = prefix_chain(word, &sub[t]);
            let ghost prev = chains(out@);
            out.push(line);
            proof {
                assert(chains(out@) =~= prev.push(line@));
                assert(chains(sub@).take(t + 1) =~= chains(sub@).take(t as int).push(sub@[t as int]@));
                assert(prefixed(word, chains(sub@).take(t + 1)) =~= prefixed(
                    word,
                    chains(sub@).take(t as int),
                ).push(seq![word] + sub@[t as int]@));
            }
            t += 1;
        }
        proof {
            assert(chains(sub@).take(sub@.len() as int) =~= chains(sub@));
            let first = grow_all(sv, u1, cands@.take(k as int), lim);
            let last = grow(sv, first.1, cands@[k as int], lim);
            assert(prefixed(word, first.0 + last.0) =~= prefixed(word, first.0) + prefixed(
                word,
                last.0,
            ));
        }
        k += 1;
    }
    out
}

/// The chains of the search from `word`, with a fresh exclusion set, up to
/// `max_len` words deep.
pub fn possible_compound_centipede_with_start(
    successor_cache: &SuccessorCache,
    word: usize,
    max_len: u64,
) -> (r: Vec<Vec<usize>>)
    requires
        successor_cache.wf(successor_cache@.len()),
        (word as int) < successor_cache@.len(),
        max_len >= 1,
    ensures
        chains(r@) == grow(successor_cache@, Set::empty(), word, max_len as nat).0,
{
    let n = successor_cache.nexts.len();
    let mut used_word: Vec<bool> = Vec::new();
    let mut i: usize = 0;
    while i < n
        invariant
            i <= n,
            used_word@.len() == i,
            forall|j: int| 0 <= j < i ==> !used_word@[j],
        decreases n - i,
    {
        used_word.push(false);
        i += 1;
    }
    proof {
        assert(used_set(used_word@) =~= Set::empty());
    }
    new_from_cache(successor_cache, &mut used_word, word, max_len)
}

/// With a depth budget of one the tree is a single leaf, whatever the successors:
/// its only chain is the root, and nothing is excluded.
pub proof fn law_depth_one_leaf(succ: Seq<Seq<usize>>, used: Set<usize>, w: usize)
    ensures
        grow(succ, used, w, 1) == (seq![seq![w]], used),
{
}

/// A tree of depth two whose root has a single successor yields both the root
/// alone and the root followed by that successor.
pub proof fn law_single_child_chains(succ: Seq<Seq<usize>>, w: usize, c: usize)
    requires
        (w as int) < succ.len(),
        succ[w as int] == seq![c],
    ensures
        grow(succ, Set::empty(), w, 2).0 == seq![seq![w], seq![w, c]],
{
    let used = Set::<usize>::empty();
    let pred = |b: usize| !used.contains(b);
    assert(seq![c] =~= Seq::<usize>::empty().push(c));
    Seq::<usize>::empty().lemma_filter_push(c, pred);
    assert(Seq::<usize>::empty().filter(pred) =~= Seq::<usize>::empty());
    let cands = candidates(succ, used, w);
    assert(cands =~= seq![c]);
    let u = used.union(cands.to_set());
    assert(cands.drop_last() =~= Seq::<usize>::empty());
    let sub = grow_all(succ, u, cands, 1);
    let first = grow_all(succ, u, cands.drop_last(), 1);
    assert(first.0 =~= Seq::<Seq<usize>>::empty());
    assert(cands.last() == c);
    assert(grow(succ, first.1, c, 1).0 == seq![seq![c]]);
    assert(sub.0 =~= seq![seq![c]]);
    assert(seq![w] + seq![c] =~= seq![w, c]);
    assert(prefixed(w, sub.0) =~= seq![seq![w, c]]);
    assert(grow(succ, used, w, 2).0 =~= seq![seq![w], seq![w, c]]);
}

/// Every successor of a word below `n` is below `n`.
pub open spec fn closed(succ: Seq<Seq<usize>>, n: nat) -> bool {
    forall|i: int, k: int| 0 <= i < n && 0 <= k < succ[i].len() ==> (#[trigger] succ[i][k] as int) < n
}

/// No successor list names a word twice.
pub open spec fn rows_distinct(succ: Seq<Seq<usize>>) -> bool {
    forall|i: int| 0 <= i < succ.len() ==> (#[trigger] succ[i]).no_duplicates()
}

proof fn lemma_filter_distinct(s: Seq<usize>, p: spec_fn(usize) -> bool)
    requires
        s.no_duplicates(),
    ensures
        s.filter(p).no_duplicates(),
    decreases s.len(),
{
    reveal(Seq::filter);
    if s.len() > 0 {
        let d = s.drop_last();
        assert forall|a: int, b: int| 0 <= a < d.len() && 0 <= b < d.len() && a != b implies d[a]
            != d[b] by {
            assert(d[a] == s[a] && d[b] == s[b]);
        }
        lemma_filter_distinct(d, p);
        if p(s.last()) {
            let f = d.filter(p);
            if f.contains(s.last()) {
                d.lemma_filter_contains_rev(p, s.last());
                let k = choose|k: int| 0 <= k < d.len() && d[k] == s.last();
                assert(s[k] == s[s.len() - 1]);
            }
            let g = f.push(s.last());
            assert forall|a: int, b: int| 0 <= a < g.len() && 0 <= b < g.len() && a != b implies g[a]
                != g[b] by {
                if a == f.len() {
                    assert(f.contains(f[b]));
                } else if b == f.len() {
                    assert(f.contains(f[a]));
                }
            }
        }
    }
}

proof fn lemma_grow_placed(succ: Seq<Seq<usize>>, used: Set<usize>, w: usize, limit: nat)
    requires
        closed(succ, succ.len()),
        rows_distinct(succ),
        (w as int) < succ.len(),
    ensures
        used.subset_of(grow(succ, used, w, limit).1),
        grow(succ, used, w, limit).0.len() >= 1,
        grow(succ, used, w, limit).0[0] == seq![w],
        forall|i: int|
            1 <= i < grow(succ, used, w, limit).0.len() ==> {
                let c = #[trigger] grow(succ, used, w, limit).0[i];
                &&& c.len() >= 2
                &&& !used.contains(c.last())
                &&& grow(succ, used, w, limit).1.contains(c.last())
            },
        forall|i: int, j: int|
            1 <= i < j < grow(succ, used, w, limit).0.len() ==> (#[trigger] grow(
                succ,
                used,
                w,
                limit,
            ).0[i]).last() != (#[trigger] grow(succ, used, w, limit).0[j]).last(),
    decreases limit, 0nat,
{
    if limit > 1 {
        let pred = |b: usize| !used.contains(b);
        let cands = candidates(succ, used, w);
        lemma_filter_distinct(succ[w as int], pred);
        assert forall|k: int| 0 <= k < cands.len() implies (#[trigger] cands[k] as int) < succ.len()
            && !used.contains(cands[k]) by {
            succ[w as int].lemma_filter_contains_rev(pred, cands[k]);
            succ[w as int].lemma_filter_pred(pred, k);
            let x = choose|x: int| 0 <= x < succ[w as int].len() && succ[w as int][x] == cands[k];
            assert((succ[w as int][x] as int) < succ.len());
        }
        let u1 = used.union(cands.to_set());
        assert forall|k: int| 0 <= k < cands.len() implies u1.contains(#[trigger] cands[k]) by {
            assert(cands.to_set().contains(cands[k]));
        }
        let lim = (limit - 1) as nat;
        lemma_grow_all_placed(succ, u1, cands, lim);
        let sub = grow_all(succ, u1, cands, lim);
        let cs = grow(succ, used, w, limit).0;
        assert(cs == seq![seq![w]] + prefixed(w, sub.0));
        assert forall|i: int| 1 <= i < cs.len() implies {
            let c = #[trigger] cs[i];
            &&& c.len() >= 2
            &&& !used.contains(c.last())
            &&& sub.1.contains(c.last())
        } by {
            let s = sub.0[i - 1];
            assert(cs[i] == seq![w] + s);
            assert(s.len() >= 1);
            assert(cs[i].last() == s.last());
            if s.len() == 1 {
                assert(cands.contains(s.last()));
            }
        }
        assert forall|i: int, j: int| 1 <= i < j < cs.len() implies (#[trigger] cs[i]).last() != (
        #[trigger] cs[j]).last() by {
            assert(cs[i] == seq![w] + sub.0[i - 1]);
            assert(cs[j] == seq![w] + sub.0[j - 1]);
            assert(sub.0[i - 1].len() >= 1 && sub.0[j - 1].len() >= 1);
            assert(cs[i].last() == sub.0[i - 1].last());
            assert(cs[j].last() == sub.0[j - 1].last());
        }
    }
}

proof fn lemma_grow_all_placed(succ: Seq<Seq<usize>>, used: Set<usize>, ws: Seq<usize>, limit: nat)
    requires
        closed(succ, succ.len()),
        rows_distinct(succ),
        ws.no_duplicates(),
        forall|k: int| 0 <= k < ws.len() ==> (#[trigger] ws[k] as int) < succ.len() && used.contains(
            ws[k],
        ),
    ensures
        used.subset_of(grow_all(succ, used, ws, limit).1),
        forall|i: int|
            0 <= i < grow_all(succ, used, ws, limit).0.len() ==> {
                let c = #[trigger] grow_all(succ, used, ws, limit).0[i];
                &&& c.len() >= 1
                &&& grow_all(succ, used, ws, limit).1.contains(c.last())
                &&& c.len() == 1 ==> ws.contains(c.last())
                &&& c.len() >= 2 ==> !used.contains(c.last())
            },
        forall|i: int, j: int|
            0 <= i < j < grow_all(succ, used, ws, limit).0.len() ==> (#[trigger] grow_all(
                succ,
                used,
                ws,
                limit,
            ).0[i]).last() != (#[trigger] grow_all(succ, used, ws, limit).0[j]).last(),
    decreases limit, ws.len(),
{
    if ws.len() > 0 {
        let d = ws.drop_last();
        let x = ws.last();
        assert forall|a: int, b: int| 0 <= a < d.len() && 0 <= b < d.len() && a != b implies d[a]
            != d[b] by {
            assert(d[a] == ws[a] && d[b] == ws[b]);
        }
        assert forall|k: int| 0 <= k < d.len() implies (#[trigger] d[k] as int) < succ.len()
            && used.contains(d[k]) by {
            assert(d[k] == ws[k]);
        }
        lemma_grow_all_placed(succ, used, d, limit);
        let first = grow_all(succ, used, d, limit);
        lemma_grow_placed(succ, first.1, x, limit);
        let last = grow(succ, first.1, x, limit);
        let f = first.0;
        let l = last.0;
        let cs = f + l;
        assert(grow_all(succ, used, ws, limit) == (cs, last.1));
        assert(used.contains(x) && first.1.contains(x));
        assert(!d.contains(x)) by {
            if d.contains(x) {
                let k = choose|k: int| 0 <= k < d.len() && d[k] == x;
                assert(ws[k] == ws[ws.len() - 1]);
            }
        }
        assert forall|i: int| 0 <= i < cs.len() implies {
            let c = #[trigger] cs[i];
            &&& c.len() >= 1
            &&& last.1.contains(c.last())
            &&& c.len() == 1 ==> ws.contains(c.last())
            &&& c.len() >= 2 ==> !used.contains(c.last())
        } by {
            if i < f.len() {
                assert(cs[i] == f[i]);
                if f[i].len() == 1 {
                    let k = choose|k: int| 0 <= k < d.len() && d[k] == f[i].last();
                    assert(ws[k] == d[k]);
                }
            } else {
                let k = i - f.len();
                assert(cs[i] == l[k]);
                if k == 0 {
                    assert(l[0].last() == x);
                    assert(ws[ws.len() - 1] == x);
                }
            }
        }
        assert forall|i: int, j: int| 0 <= i < j < cs.len() implies (#[trigger] cs[i]).last() != (
        #[trigger] cs[j]).last() by {
            if j < f.len() {
                assert(cs[i] == f[i] && cs[j] == f[j]);
            } else if i >= f.len() {
                let a = i - f.len();
                let b = j - f.len();
                assert(cs[i] == l[a] && cs[j] == l[b]);
                if a == 0 {
                    assert(l[0].last() == x);
                    assert(l[b].len() >= 2);
                }
            } else {
                let b = j - f.len();
                assert(cs[i] == f[i] && cs[j] == l[b]);
                if b == 0 {
                    assert(l[0].last() == x);
                    if f[i].len() == 1 {
                        assert(d.contains(f[i].last()));
                    }
                } else {
                    assert(l[b].len() >= 2);
                }
            }
        }
    }
}

/// From a fresh exclusion set, no word other than the root is placed twice in
/// the tree: the chains longer than one word, one per non-root node, all end in
/// different words, so a word taken by one sibling never reappears in the
/// subtree of another, nor further down the same path.
pub proof fn law_exclusion_shared(succ: Seq<Seq<usize>>, w: usize, limit: nat)
    requires
        closed(succ, succ.len()),
        rows_distinct(succ),
        (w as int) < succ.len(),
    ensures
        forall|i: int, j: int|
            0 <= i < grow(succ, Set::empty(), w, limit).0.len() && 0 <= j < grow(
                succ,
                Set::empty(),
                w,
                limit,
            ).0.len() && i != j && (#[trigger] grow(succ, Set::empty(), w, limit).0[i]).len() >= 2
                && (#[trigger] grow(succ, Set::empty(), w, limit).0[j]).len() >= 2 ==> grow(
                succ,
                Set::empty(),
                w,
                limit,
            ).0[i].last() != grow(succ, Set::empty(), w, limit).0[j].last(),
{
    lemma_grow_placed(succ, Set::empty(), w, limit);
    let cs = grow(succ, Set::empty(), w, limit).0;
    assert forall|i: int, j: int|
        0 <= i < cs.len() && 0 <= j < cs.len() && i != j && (#[trigger] cs[i]).len() >= 2 && (
        #[trigger] cs[j]).len() >= 2 implies cs[i].last() != cs[j].last() by {
        assert(cs[0].len() == 1);
        if i < j {
            assert(cs[i].last() != cs[j].last());
        } else {
            assert(cs[j].last() != cs[i].last());
        }
    }
}

} // verus!
