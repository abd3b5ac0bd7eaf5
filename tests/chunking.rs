use vecstore::{chunk_starts, CHUNK_LIMIT};

fn pack(words: &[&str]) -> Vec<String> {
    let lens: Vec<usize> = words.iter().map(|w| w.len()).collect();
    let starts = chunk_starts(&lens);
    starts
        .iter()
        .enumerate()
        .map(|(j, &a)| {
            let b = starts.get(j + 1).copied().unwrap_or(words.len());
            words[a..b].join(" ")
        })
        .collect()
}

#[test]
fn no_words_no_passages() {
    assert!(chunk_starts(&vec![]).is_empty());
}

#[test]
fn short_text_is_one_passage() {
    assert_eq!(pack(&["alpha", "beta", "gamma"]), vec!["alpha beta gamma".to_string()]);
    assert_eq!(chunk_starts(&vec![5, 4, 5]), vec![0]);
}

#[test]
fn passages_fill_up_to_the_limit() {
    assert_eq!(CHUNK_LIMIT, 512);
    // 255 + 1 + 256 = 512 fits; one more byte does not.
    assert_eq!(chunk_starts(&vec![255, 256]), vec![0]);
    assert_eq!(chunk_starts(&vec![255, 257]), vec![0, 1]);
    assert_eq!(chunk_starts(&vec![100; 10]), vec![0, 5]);
}

#[test]
fn long_word_stands_alone() {
    assert_eq!(chunk_starts(&vec![3, 600, 3, 3]), vec![0, 1, 2]);
    let long = "x".repeat(700);
    let passages = pack(&["a", &long, "b", "c"]);
    assert_eq!(passages, vec!["a".to_string(), long.clone(), "b c".to_string()]);
}

#[test]
fn every_passage_respects_the_limit() {
    let words: Vec<String> = (0..400).map(|i| "w".repeat(1 + (i * 37) % 90)).collect();
    let refs: Vec<&str> = words.iter().map(|s| s.as_str()).collect();
    let passages = pack(&refs);
    assert_eq!(passages.join(" "), refs.join(" "));
    for p in &passages {
        assert!(p.len() <= CHUNK_LIMIT);
    }
}
