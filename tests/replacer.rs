use std::sync::Arc;

use ac_replacer::{AhoCorasickReplacer, Automaton, MatchError};

/// Builds a dense table over all prefixes of `patterns` (state 0 is the empty
/// prefix): each transition goes to the longest suffix that is still a prefix,
/// and a state's primary pattern is the longest pattern it ends with.
fn table(patterns: &[&[u8]]) -> (Vec<usize>, Vec<Option<usize>>, Vec<usize>) {
    let mut prefixes: Vec<Vec<u8>> = vec![Vec::new()];
    for p in patterns {
        for k in 1..=p.len() {
            let pre = p[..k].to_vec();
            if !prefixes.contains(&pre) {
                prefixes.push(pre);
            }
        }
    }
    let index_of = |s: &[u8]| prefixes.iter().position(|q| q.as_slice() == s);
    let mut trans = vec![0usize; prefixes.len() * 256];
    for (i, st) in prefixes.iter().enumerate() {
        for b in 0..256usize {
            let mut w = st.clone();
            w.push(b as u8);
            let target = (0..=w.len()).find_map(|from| index_of(&w[from..])).unwrap();
            trans[i * 256 + b] = target;
        }
    }
    let matches = prefixes
        .iter()
        .map(|st| (0..st.len()).find_map(|from| patterns.iter().position(|p| *p == &st[from..])))
        .collect();
    let lens = patterns.iter().map(|p| p.len()).collect();
    (trans, matches, lens)
}

fn automaton(patterns: &[&[u8]]) -> Arc<Automaton> {
    let (trans, matches, lens) = table(patterns);
    Arc::new(Automaton::new(trans, 0, true, matches, lens).unwrap())
}

fn replacer(pairs: &[(&[u8], &[u8])]) -> AhoCorasickReplacer {
    let patterns: Vec<&[u8]> = pairs.iter().map(|p| p.0).collect();
    let with: Vec<Vec<u8>> = pairs.iter().map(|p| p.1.to_vec()).collect();
    AhoCorasickReplacer::new(automaton(&patterns), with).unwrap()
}

/// Feeds `chunks` one call at a time, then finishes; returns each call's output.
fn feed(pairs: &[(&[u8], &[u8])], chunks: &[&[u8]]) -> Vec<Vec<u8>> {
    let mut r = replacer(pairs);
    let mut outs = Vec::new();
    for c in chunks {
        outs.push(r.replace(c).unwrap().to_vec());
    }
    outs.push(r.finish().unwrap().to_vec());
    outs
}

fn total(pairs: &[(&[u8], &[u8])], chunks: &[&[u8]]) -> Vec<u8> {
    feed(pairs, chunks).concat()
}

#[test]
fn greedy_non_overlap_across_chunks() {
    let outs = feed(&[(b"ab", b"Z")], &[b"a", b"ab"]);
    assert_eq!(outs, vec![b"".to_vec(), b"aZ".to_vec(), b"".to_vec()]);
}

#[test]
fn full_match_of_longer_pattern() {
    let outs = feed(&[(b"he", b"1"), (b"she", b"2")], &[b"she"]);
    assert_eq!(outs[0], b"2".to_vec());
    assert_eq!(outs.concat(), b"2".to_vec());
}

#[test]
fn shorter_pattern_inside_longer_word() {
    let outs = feed(&[(b"he", b"1")], &[b"she"]);
    assert_eq!(outs[0], b"s1".to_vec());
}

#[test]
fn truncation_after_suffix_link() {
    // "abc" is pursued towards "abcd"; at 'c' the state also ends with "bc".
    let outs = feed(&[(b"abcd", b"1"), (b"bc", b"2")], &[b"abce"]);
    assert_eq!(outs[0], b"a2e".to_vec());
    // The match at "bc" fires first; the scan then starts over at 'd'.
    assert_eq!(total(&[(b"abcd", b"1"), (b"bc", b"2")], &[b"xabcdy"]), b"xa2dy".to_vec());
}

#[test]
fn empty_replacement_deletes() {
    let outs = feed(&[(b"foo", b"")], &[b"xfoo", b"y"]);
    assert_eq!(outs, vec![b"x".to_vec(), b"y".to_vec(), b"".to_vec()]);
    assert_eq!(total(&[(b"foo", b"")], &[b"xfooy"]), b"xy".to_vec());
}

#[test]
fn whole_chunk_deleted_gives_empty_output() {
    let mut r = replacer(&[(b"foo", b"")]);
    assert_eq!(r.replace(b"foo").unwrap(), b"");
    assert_eq!(r.finish().unwrap(), b"");
}

#[test]
fn finish_drains_pending() {
    let mut r = replacer(&[(b"abcd", b"Z")]);
    assert_eq!(r.replace(b"ab").unwrap(), b"");
    assert_eq!(r.finish().unwrap(), b"ab");
}

#[test]
fn finish_with_nothing_pending() {
    let mut r = replacer(&[(b"abcd", b"Z")]);
    assert_eq!(r.replace(b"xyz").unwrap(), b"xyz");
    assert_eq!(r.finish().unwrap(), b"");
}

#[test]
fn empty_chunk_changes_nothing() {
    let mut r = replacer(&[(b"abcd", b"Z")]);
    assert_eq!(r.replace(b"").unwrap(), b"");
    assert_eq!(r.replace(b"ab").unwrap(), b"");
    assert_eq!(r.replace(b"").unwrap(), b"");
    assert_eq!(r.replace(b"cd").unwrap(), b"Z");
    let mut fresh = replacer(&[(b"abcd", b"Z")]);
    assert_eq!(fresh.replace(b"").unwrap(), b"");
    assert_eq!(fresh.finish().unwrap(), b"");
}

#[test]
fn match_split_over_many_chunks() {
    let outs = feed(&[(b"abcd", b"Z")], &[b"xa", b"b", b"c", b"dy"]);
    assert_eq!(outs, vec![b"x".to_vec(), b"".to_vec(), b"".to_vec(), b"Zy".to_vec(), b"".to_vec()]);
}

#[test]
fn abandoned_candidate_is_flushed() {
    let outs = feed(&[(b"abcd", b"Z")], &[b"abc", b"x"]);
    assert_eq!(outs, vec![b"".to_vec(), b"abcx".to_vec(), b"".to_vec()]);
}

#[test]
fn partitions_give_the_same_output() {
    let pairs: &[(&[u8], &[u8])] = &[(b"he", b"1"), (b"she", b"2"), (b"hers", b"333"), (b"his", b"")];
    let input: &[u8] = b"ushers said his hershe shes";
    let whole = total(pairs, &[input]);
    assert_eq!(whole, b"u2rs said  1r2 2s".to_vec());
    let bytes: Vec<&[u8]> = input.chunks(1).collect();
    assert_eq!(total(pairs, &bytes), whole);
    for size in 2..input.len() {
        let parts: Vec<&[u8]> = input.chunks(size).collect();
        assert_eq!(total(pairs, &parts), whole);
    }
    let (a, b) = input.split_at(9);
    assert_eq!(total(pairs, &[a, b"", b]), whole);
}

#[test]
fn input_without_matches_is_unaltered() {
    let pairs: &[(&[u8], &[u8])] = &[(b"abcd", b"Z"), (b"xyz", b"Q")];
    let input: &[u8] = b"abcabxyabcxyxy";
    let outs = feed(pairs, &[&input[..5], &input[5..12], &input[12..]]);
    assert_eq!(outs.concat(), input.to_vec());
    // No byte returns to the start state, so everything waits for the end.
    assert_eq!(outs, vec![Vec::new(), Vec::new(), Vec::new(), input.to_vec()]);
    let plain = feed(pairs, &[b"qq", b"xyq"]);
    assert_eq!(plain, vec![b"qq".to_vec(), b"xyq".to_vec(), Vec::new()]);
}

#[test]
fn every_byte_counted_once() {
    // With deleting replacements, output bytes plus matched bytes add up to the input.
    let pairs: &[(&[u8], &[u8])] = &[(b"ab", b"")];
    let input: &[u8] = b"xabyabaab";
    let out = total(pairs, &[&input[..2], &input[2..7], &input[7..]]);
    assert_eq!(out, b"xya".to_vec());
    assert_eq!(out.len() + 3 * 2, input.len());
}

#[test]
fn long_replacements_grow_the_buffer() {
    let outs = feed(&[(b"a", b"XYZXYZ")], &[b"aaaa", b"bab"]);
    assert_eq!(outs[0], b"XYZXYZXYZXYZXYZXYZXYZXYZ".to_vec());
    assert_eq!(outs[1], b"bXYZXYZb".to_vec());
}

#[test]
fn buffer_reused_after_a_large_call() {
    let mut r = replacer(&[(b"q", b"0123456789")]);
    assert_eq!(r.replace(b"qq").unwrap(), b"01234567890123456789");
    assert_eq!(r.replace(b"z").unwrap(), b"z");
    assert_eq!(r.replace(b"").unwrap(), b"");
}

#[test]
fn anchored_only_automaton_is_refused() {
    let (trans, matches, lens) = table(&[b"ab"]);
    let aut = Arc::new(Automaton::new(trans, 0, false, matches, lens).unwrap());
    let r = AhoCorasickReplacer::new(aut.clone(), vec![b"Z".to_vec()]);
    assert!(matches!(r, Err(MatchError::InvalidInputUnanchored)));
    assert_eq!(aut.start_state(), Err(MatchError::InvalidInputUnanchored));
}

#[test]
fn automaton_queries() {
    let aut = automaton(&[b"he", b"she"]);
    assert_eq!(aut.start_state(), Ok(0));
    let s = aut.next_state(0, b's');
    assert!(!aut.is_start(s));
    let sh = aut.next_state(s, b'h');
    let she = aut.next_state(sh, b'e');
    assert_eq!(aut.match_pattern(she), Some(1));
    assert_eq!(aut.pattern_len(1), 3);
    assert_eq!(aut.match_pattern(sh), None);
    assert!(aut.is_start(aut.next_state(0, b'z')));
}

#[test]
fn malformed_tables_are_refused() {
    let (trans, matches, lens) = table(&[b"ab"]);
    assert!(Automaton::new(trans.clone(), 0, true, matches.clone(), lens.clone()).is_some());
    assert!(Automaton::new(trans.clone(), 9, true, matches.clone(), lens.clone()).is_none());
    assert!(Automaton::new(trans[1..].to_vec(), 0, true, matches.clone(), lens.clone()).is_none());
    let mut bad = trans.clone();
    bad[5] = 3;
    assert!(Automaton::new(bad, 0, true, matches.clone(), lens.clone()).is_none());
    assert!(Automaton::new(trans.clone(), 0, true, matches.clone(), Vec::new()).is_none());
    assert!(Automaton::new(Vec::new(), 0, true, Vec::new(), lens).is_none());
}
