use spellcheck::distance::wagner_fischer;
use spellcheck::order::select_closest;
use spellcheck::ranker::spell_check;

/// The whole table, filled cell by cell.
fn full_table(a: &[u8], b: &[u8]) -> usize {
    let mut table = vec![vec![0usize; b.len() + 1]; a.len() + 1];
    for i in 0..=a.len() {
        table[i][0] = i;
    }
    for j in 0..=b.len() {
        table[0][j] = j;
    }
    for i in 1..=a.len() {
        for j in 1..=b.len() {
            let turn = if a[i - 1] == b[j - 1] { 0 } else { 1 };
            table[i][j] = (table[i - 1][j] + 1)
                .min(table[i][j - 1] + 1)
                .min(table[i - 1][j - 1] + turn);
        }
    }
    table[a.len()][b.len()]
}

/// A fixed stream of numbers that look shuffled.
fn next(state: &mut u64) -> u64 {
    *state = state
        .wrapping_mul(6364136223846793005)
        .wrapping_add(1442695040888963407);
    *state >> 33
}

fn word(state: &mut u64, longest: u64, letters: u64) -> String {
    let length = next(state) % (longest + 1);
    (0..length)
        .map(|_| (b'a' + (next(state) % letters) as u8) as char)
        .collect()
}

#[test]
fn distance_agrees_with_full_table() {
    let mut state = 7u64;
    for _ in 0..400 {
        let a = word(&mut state, 9, 3);
        let b = word(&mut state, 9, 3);
        assert_eq!(wagner_fischer(&a, &b), full_table(a.as_bytes(), b.as_bytes()));
    }
}

#[test]
fn distance_agrees_with_full_table_beyond_ascii() {
    let words = ["", "é", "e", "naïve", "naive", "日本", "日本語", "añb", "anb", "ü", "üü"];
    for a in words {
        for b in words {
            assert_eq!(wagner_fischer(a, b), full_table(a.as_bytes(), b.as_bytes()));
        }
    }
}

#[test]
fn selection_agrees_with_stable_sort() {
    let mut state = 11u64;
    for round in 0..200 {
        let count = (next(&mut state) % 30) as usize;
        let keys: Vec<usize> = (0..count).map(|_| (next(&mut state) % 6) as usize).collect();
        let limit = round % 14;
        let mut expected: Vec<usize> = (0..count).collect();
        expected.sort_by_key(|&i| keys[i]);
        expected.truncate(limit);
        assert_eq!(select_closest(&keys, limit), expected);
    }
}

#[test]
fn ranking_agrees_with_stable_sort() {
    let mut state = 13u64;
    for _ in 0..120 {
        let count = (next(&mut state) % 25) as usize;
        let dictionary: Vec<String> = (0..count).map(|_| word(&mut state, 5, 2)).collect();
        let query = word(&mut state, 5, 2);
        let mut expected: Vec<(String, usize)> = Vec::new();
        if !dictionary.contains(&query) {
            for entry in &dictionary {
                expected.push((entry.clone(), full_table(query.as_bytes(), entry.as_bytes())));
            }
            expected.sort_by_key(|pair| pair.1);
            expected.truncate(10);
        }
        assert_eq!(spell_check(&query, &dictionary), expected);
    }
}
