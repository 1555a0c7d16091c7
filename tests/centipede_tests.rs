use centipede::collector::WordsPage;
use centipede::centipede::{chain_line, chains_of_length, lines_for_root, SearchConfig};
use centipede::compound::{CompoundWords, NonCompoundWords};
use centipede::index::WordCharMap;
use centipede::search::{new_from_cache, possible_compound_centipede_with_start};
use centipede::successor::{joined, SuccessorCache};
use centipede::words::{contains_word, copy_range, filter_words, keep_word, same_word};

fn w(s: &str) -> Vec<char> {
    s.chars().collect()
}

fn ws(items: &[&str]) -> Vec<Vec<char>> {
    items.iter().map(|s| w(s)).collect()
}

fn text(v: &[char]) -> String {
    v.iter().collect()
}

fn parts_of(cw: &CompoundWords, word: &str) -> Option<Vec<String>> {
    cw.entries
        .iter()
        .find(|e| e.word == w(word))
        .map(|e| e.parts.iter().map(|p| text(p)).collect())
}

fn base_index(base: &NonCompoundWords, word: &str) -> usize {
    base.words.iter().position(|b| *b == w(word)).unwrap()
}

fn build(items: &[&str]) -> (CompoundWords, NonCompoundWords, SuccessorCache) {
    let index = WordCharMap::new(ws(items));
    let cw = CompoundWords::new(&index);
    let base = NonCompoundWords::new(&cw);
    let cache = SuccessorCache::new(&base, &cw);
    (cw, base, cache)
}

#[test]
fn keep_word_rules() {
    assert!(keep_word(&w("abc")));
    assert!(!keep_word(&w("a")));
    assert!(!keep_word(&w("")));
    assert!(!keep_word(&w("ab cd")));
    assert!(!keep_word(&w("ab-cd")));
    assert!(!keep_word(&w("\u{0E01}\u{0E46}")));
    assert!(!keep_word(&w("\u{0E01}\u{0E23}\u{0E30}\u{0E14}")));
    assert!(keep_word(&w("\u{0E01}\u{0E23}\u{0E14}")));
}

#[test]
fn filter_words_keeps_order() {
    let out = filter_words(&ws(&["ab", "c", "x y", "cd", "e-f", "gh"]));
    assert_eq!(out, ws(&["ab", "cd", "gh"]));
}

#[test]
fn small_helpers() {
    assert!(same_word(&w("ab"), &w("ab")));
    assert!(!same_word(&w("ab"), &w("abc")));
    assert_eq!(copy_range(&w("abcdef"), 1, 4), w("bcd"));
    assert_eq!(joined(&w("ab"), &w("cd")), w("abcd"));
    assert!(contains_word(&ws(&["ab", "cd"]), &w("cd")));
    assert!(!contains_word(&ws(&["ab", "cd"]), &w("c")));
}

#[test]
fn decompose_greedy_longest_first() {
    let index = WordCharMap::new(ws(&["abcd", "abc", "ab", "cd", "d"]));
    let d = index.decompose(&w("abcd")).unwrap();
    assert_eq!(d, ws(&["abc", "d"]));
    assert!(index.contains_range(&w("xabx"), 1, 3));
    assert!(!index.contains_range(&w("xabx"), 0, 3));
}

#[test]
fn decompose_fails_without_cover() {
    let index = WordCharMap::new(ws(&["abcd", "ab", "c"]));
    assert_eq!(index.decompose(&w("abcd")), None);
    assert_eq!(index.decompose(&w("ab")), None);
}

#[test]
fn decompose_never_matches_itself() {
    let index = WordCharMap::new(ws(&["aa", "aaaa"]));
    assert_eq!(index.decompose(&w("aa")), None);
    assert_eq!(index.decompose(&w("aaaa")).unwrap(), ws(&["aa", "aa"]));
}

#[test]
fn flattening_reaches_base_words() {
    let (cw, base, _) = build(&["abcd", "abc", "ab", "a", "b", "c", "d"]);
    assert_eq!(parts_of(&cw, "abcd").unwrap(), vec!["a", "b", "c", "d"]);
    assert_eq!(parts_of(&cw, "abc").unwrap(), vec!["a", "b", "c"]);
    assert_eq!(parts_of(&cw, "ab").unwrap(), vec!["a", "b"]);
    assert_eq!(parts_of(&cw, "a"), None);
    for e in &cw.entries {
        for p in &e.parts {
            assert!(cw.entries.iter().all(|o| o.word != *p));
        }
    }
    let mut names: Vec<String> = base.words.iter().map(|b| text(b)).collect();
    names.sort();
    assert_eq!(names, vec!["a", "b", "c", "d"]);
}

#[test]
fn duplicate_words_give_one_entry() {
    let (cw, base, _) = build(&["ab", "a", "ab", "b"]);
    assert_eq!(cw.entries.len(), 1);
    assert_eq!(parts_of(&cw, "ab").unwrap(), vec!["a", "b"]);
    assert_eq!(base.words.len(), 2);
}

#[test]
fn compound_word_is_not_a_base_word() {
    let (cw, base, _) = build(&["abc", "ab", "a", "b", "c", "xab"]);
    assert!(parts_of(&cw, "ab").is_some());
    assert_eq!(parts_of(&cw, "abc").unwrap(), vec!["a", "b", "c"]);
    assert!(base.words.iter().all(|b| *b != w("ab")));
    assert_eq!(parts_of(&cw, "xab"), None);
}

#[test]
fn successor_asymmetry_is_fine() {
    let (_, base, cache) = build(&["ab", "a", "b"]);
    let a = base_index(&base, "a");
    let b = base_index(&base, "b");
    assert!(cache.is_2_words_compound(a, b));
    assert!(!cache.is_2_words_compound(b, a));
    assert_eq!(cache.successor_for(a).unwrap(), &vec![b]);
    assert!(cache.successor_for(b).unwrap().is_empty());
    assert_eq!(cache.successor_for(5), None);
    assert!(!cache.is_2_words_compound(5, a));
}

#[test]
fn depth_one_is_a_leaf() {
    let cache = SuccessorCache { nexts: vec![vec![1, 2], vec![0], vec![]] };
    assert_eq!(possible_compound_centipede_with_start(&cache, 0, 1), vec![vec![0]]);
}

#[test]
fn single_child_gives_both_prefixes() {
    let cache = SuccessorCache { nexts: vec![vec![1], vec![]] };
    assert_eq!(
        possible_compound_centipede_with_start(&cache, 0, 2),
        vec![vec![0], vec![0, 1]]
    );
}

#[test]
fn siblings_share_exclusion() {
    let cache = SuccessorCache { nexts: vec![vec![1, 2], vec![], vec![]] };
    assert_eq!(
        possible_compound_centipede_with_start(&cache, 0, 3),
        vec![vec![0], vec![0, 1], vec![0, 2]]
    );
    let cache = SuccessorCache { nexts: vec![vec![1, 2], vec![2], vec![]] };
    assert_eq!(
        possible_compound_centipede_with_start(&cache, 0, 4),
        vec![vec![0], vec![0, 1], vec![0, 2]]
    );
}

#[test]
fn exclusion_persists_across_calls() {
    let cache = SuccessorCache { nexts: vec![vec![1, 2], vec![2], vec![]] };
    let mut used = vec![false, false, false];
    let first = new_from_cache(&cache, &mut used, 1, 3);
    assert_eq!(first, vec![vec![1], vec![1, 2]]);
    assert_eq!(used, vec![false, false, true]);
    let second = new_from_cache(&cache, &mut used, 0, 3);
    assert_eq!(second, vec![vec![0], vec![0, 1]]);
    assert_eq!(used, vec![false, true, true]);
}

#[test]
fn root_is_not_excluded() {
    let cache = SuccessorCache { nexts: vec![vec![1], vec![0]] };
    assert_eq!(
        possible_compound_centipede_with_start(&cache, 0, 3),
        vec![vec![0], vec![0, 1], vec![0, 1, 0]]
    );
}

#[test]
fn chains_filtered_by_length() {
    let all = vec![vec![0], vec![0, 1], vec![0, 1, 2], vec![0, 2]];
    assert_eq!(chains_of_length(&all, 2), vec![vec![0, 1], vec![0, 2]]);
    assert!(chains_of_length(&all, 4).is_empty());
}

#[test]
fn chain_line_has_trailing_spaces() {
    let base = NonCompoundWords { words: ws(&["ab", "c"]) };
    assert_eq!(text(&chain_line(&base, &vec![0, 1, 0])), "ab c ab ");
    assert_eq!(text(&chain_line(&base, &vec![])), "");
}

#[test]
fn end_to_end_two_words() {
    let (cw, base, cache) = build(&["ab", "a", "b"]);
    assert_eq!(parts_of(&cw, "ab").unwrap(), vec!["a", "b"]);
    let config = SearchConfig { max_depth: 3, target_length: 2 };
    let a = base_index(&base, "a");
    let b = base_index(&base, "b");
    let lines: Vec<String> = lines_for_root(&cache, &base, a, &config).iter().map(|l| text(l)).collect();
    assert_eq!(lines, vec!["a b "]);
    assert!(lines_for_root(&cache, &base, b, &config).is_empty());
}

#[test]
fn end_to_end_longer_chain() {
    let (_, base, cache) = build(&["ab", "bc", "a", "b", "c"]);
    let a = base_index(&base, "a");
    let config = SearchConfig { max_depth: 8, target_length: 3 };
    let lines: Vec<String> = lines_for_root(&cache, &base, a, &config).iter().map(|l| text(l)).collect();
    assert_eq!(lines, vec!["a b c "]);
}

#[test]
fn max_page_counts_partial_pages() {
    assert_eq!(WordsPage { words: vec![], max_count: 0 }.max_page(), 1);
    assert_eq!(WordsPage { words: vec![], max_count: 25 }.max_page(), 3);
    assert_eq!(WordsPage { words: vec!["x".to_string()], max_count: 30 }.max_page(), 4);
}
