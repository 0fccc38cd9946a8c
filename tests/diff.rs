use myers_diff::myers::{diff, reconstruct_shortest_edit, shortest_edit_script, EditCommand};

fn chars(s: &str) -> Vec<char> {
    s.chars().collect()
}

/// Applies a script to `a`, checking each step against `a` and the recorded positions.
fn apply<T: Copy + PartialEq + std::fmt::Debug>(a: &[T], script: &[EditCommand<T>]) -> Vec<T> {
    let mut out = Vec::new();
    let mut i = 0;
    for c in script {
        match *c {
            EditCommand::Keep(e) => {
                assert_eq!(a[i], e);
                out.push(e);
                i += 1;
            }
            EditCommand::Delete(e, p) => {
                assert_eq!(p, i);
                assert_eq!(a[i], e);
                i += 1;
            }
            EditCommand::Insert(e, p) => {
                assert_eq!(p, i);
                out.push(e);
            }
        }
    }
    assert_eq!(i, a.len());
    out
}

fn edits<T>(script: &[EditCommand<T>]) -> usize {
    script.iter().filter(|c| !matches!(c, EditCommand::Keep(_))).count()
}

/// Insert/delete distance by dynamic programming over the longest common subsequence.
fn reference_distance<T: PartialEq>(a: &[T], b: &[T]) -> usize {
    let mut l = vec![vec![0usize; b.len() + 1]; a.len() + 1];
    for i in 1..=a.len() {
        for j in 1..=b.len() {
            l[i][j] = if a[i - 1] == b[j - 1] {
                l[i - 1][j - 1] + 1
            } else {
                l[i - 1][j].max(l[i][j - 1])
            };
        }
    }
    a.len() + b.len() - 2 * l[a.len()][b.len()]
}

/// All sequences over a two-letter alphabet up to the given length.
fn small_sequences(max_len: usize) -> Vec<Vec<u8>> {
    let mut all = vec![vec![]];
    let mut layer: Vec<Vec<u8>> = vec![vec![]];
    for _ in 0..max_len {
        let mut next = Vec::new();
        for s in &layer {
            for c in [b'a', b'b'] {
                let mut t = s.clone();
                t.push(c);
                next.push(t);
            }
        }
        all.extend(next.iter().cloned());
        layer = next;
    }
    all
}

#[test]
fn test_same() {
    let a = "abcd";
    let b = "abcd";
    let result = shortest_edit_script(a.as_bytes(), b.as_bytes(), None);
    println!("{:?}", result);
    assert_eq!(result.map(|(d, _)| d), Some(0));
}

#[test]
fn identity_keeps_every_element() {
    let s = chars("ABCABBA");
    let (d, script) = diff(&s, &s, None).unwrap();
    assert_eq!(d, 0);
    let expected: Vec<EditCommand<char>> = s.iter().map(|&c| EditCommand::Keep(c)).collect();
    assert_eq!(script, expected);
}

#[test]
fn concrete_scenario() {
    let a = chars("ABCABBA");
    let b = chars("CBABAC");
    let (d, trace) = shortest_edit_script(&a, &b, None).unwrap();
    // The longest common subsequence has four elements ("BABA"), so the
    // insert/delete distance is 7 + 6 - 2 * 4.
    assert_eq!(reference_distance(&a, &b), 5);
    assert_eq!(d, 5);
    assert_eq!(trace.len(), 5);
    let script = reconstruct_shortest_edit(&a, &b, d, &trace);
    assert_eq!(apply(&a, &script), b);
    assert_eq!(edits(&script), 5);
}

#[test]
fn insert_only_from_empty() {
    let a: Vec<char> = vec![];
    let b = chars("XYZ");
    let (d, script) = diff(&a, &b, None).unwrap();
    assert_eq!(d, 3);
    assert_eq!(
        script,
        vec![EditCommand::Insert('X', 0), EditCommand::Insert('Y', 0), EditCommand::Insert('Z', 0)]
    );
}

#[test]
fn delete_only_to_empty() {
    let a = chars("XYZ");
    let b: Vec<char> = vec![];
    let (d, script) = diff(&a, &b, None).unwrap();
    assert_eq!(d, 3);
    assert_eq!(
        script,
        vec![EditCommand::Delete('X', 0), EditCommand::Delete('Y', 1), EditCommand::Delete('Z', 2)]
    );
}

#[test]
fn both_empty() {
    let a: Vec<u8> = vec![];
    let (d, script) = diff(&a, &a, None).unwrap();
    assert_eq!(d, 0);
    assert!(script.is_empty());
}

#[test]
fn disjoint_sequences_cost_everything() {
    let a = chars("abc");
    let b = chars("xyzw");
    let (d, script) = diff(&a, &b, None).unwrap();
    assert_eq!(d, 7);
    assert_eq!(apply(&a, &script), b);
}

#[test]
fn round_trip_and_minimality_on_small_sequences() {
    let all = small_sequences(5);
    for a in &all {
        for b in &all {
            let (d, script) = diff(a, b, None).unwrap();
            assert_eq!(apply(a, &script), *b, "{:?} -> {:?}", a, b);
            assert_eq!(d, reference_distance(a, b), "{:?} -> {:?}", a, b);
            assert_eq!(edits(&script), d, "{:?} -> {:?}", a, b);
        }
    }
}

#[test]
fn longer_words_match_reference_distance() {
    let pairs = [("kitten", "sitting"), ("intention", "execution"), ("abcdefgh", "hgfedcba")];
    for (x, y) in pairs {
        let a = chars(x);
        let b = chars(y);
        let (d, script) = diff(&a, &b, None).unwrap();
        assert_eq!(d, reference_distance(&a, &b));
        assert_eq!(apply(&a, &script), b);
    }
}

#[test]
fn cost_is_symmetric() {
    let all = small_sequences(4);
    for a in &all {
        for b in &all {
            let ab = shortest_edit_script(a, b, None).unwrap().0;
            let ba = shortest_edit_script(b, a, None).unwrap().0;
            assert_eq!(ab, ba);
        }
    }
}

#[test]
fn budget_is_enforced() {
    let a = chars("ABCABBA");
    let b = chars("CBABAC");
    for k in 0..5 {
        assert!(shortest_edit_script(&a, &b, Some(k)).is_none());
        assert!(diff(&a, &b, Some(k)).is_none());
    }
    for k in [5, 6, 13, 100, usize::MAX] {
        assert_eq!(shortest_edit_script(&a, &b, Some(k)).map(|r| r.0), Some(5));
    }
}

#[test]
fn frontiers_grow_by_one_diagonal_per_distance() {
    let a = chars("ABCABBA");
    let b = chars("CBABAC");
    let (_, trace) = shortest_edit_script(&a, &b, None).unwrap();
    for (d, v) in trace.iter().enumerate() {
        assert_eq!(v.len(), d + 1);
    }
    assert_eq!(trace[0], vec![0]);
}

#[test]
fn inconsistent_history_still_gives_a_correct_script() {
    let a = chars("ABCABBA");
    let b = chars("CBABAC");
    let bogus = vec![vec![5], vec![0, 9], vec![1, 1, 1]];
    let script = reconstruct_shortest_edit(&a, &b, 3, &bogus);
    assert_eq!(apply(&a, &script), b);
}
