//! Chunker behaviour on concrete inputs: word splitting, greedy grouping,
//! whitespace normalization and the oversized-token edge case.

use tts_pipeline::chunker::build_chunks;
use tts_pipeline::chunker::split_input;
use tts_pipeline::chunker::split_words;

fn strings(words: &[&str]) -> Vec<String> {
    words.iter().map(|w| w.to_string()).collect()
}

#[test]
fn splits_words_on_whitespace() {
    assert_eq!(split_words("a b c d"), strings(&["a", "b", "c", "d"]));
    assert_eq!(split_words("  hello\t\nworld  "), strings(&["hello", "world"]));
    assert_eq!(split_words(""), Vec::<String>::new());
    assert_eq!(split_words(" \t\r\n "), Vec::<String>::new());
    assert_eq!(split_words("single"), strings(&["single"]));
}

#[test]
fn forces_single_word_chunks_at_length_one() {
    // max length 1: no two words can share a chunk
    assert_eq!(split_input("a b c d", 1), strings(&["a", "b", "c", "d"]));
}

#[test]
fn groups_words_greedily() {
    // the first chunk budgets one extra byte, so "ab" closes alone at 5
    assert_eq!(split_input("ab cd ef", 5), strings(&["ab", "cd ef"]));
    // at 8 the first chunk takes "ab cd" (2+1+2+1 = 6 <= 8), "ef" overflows it
    assert_eq!(split_input("ab cd ef", 8), strings(&["ab cd", "ef"]));
    // at 9 everything fits in the first chunk (2+1+2+1+1+2+1 = 9)
    assert_eq!(split_input("ab cd ef", 9), strings(&["ab cd ef"]));
    // one-byte words: the first chunk closes after one word at 3
    assert_eq!(split_input("a b c d", 3), strings(&["a", "b c", "d"]));
}

#[test]
fn oversized_token_forms_its_own_chunk() {
    // a single word longer than the maximum is kept whole
    assert_eq!(split_input("abcdefgh", 3), strings(&["abcdefgh"]));
    assert_eq!(split_input("xy abcdefgh zw", 3), strings(&["xy", "abcdefgh", "zw"]));
}

#[test]
fn concatenation_reproduces_normalized_input() {
    for max in 1..12usize {
        let chunks = split_input("  one   two\tthree \n four ", max);
        let joined = chunks.join(" ");
        assert_eq!(joined, "one two three four");
        for chunk in &chunks {
            assert!(chunk.len() <= max || !chunk.contains(' '));
        }
    }
}

#[test]
fn empty_input_yields_no_chunks() {
    assert_eq!(split_input("", 10), Vec::<String>::new());
    assert_eq!(split_input("   ", 10), Vec::<String>::new());
}

#[test]
fn chunk_lengths_count_bytes_not_chars() {
    // each word is two chars but four bytes in UTF-8, so "ää öö" joins to
    // 4+1+4 = 9 bytes, plus the first chunk's one-byte separator budget
    assert_eq!(split_input("ää öö", 10), strings(&["ää öö"]));
    assert_eq!(split_input("ää öö", 9), strings(&["ää", "öö"]));
}

#[test]
fn unicode_whitespace_separates_words() {
    // no-break space, ideographic space, en quad, narrow no-break space and
    // the line separator all delimit words, exactly as ASCII whitespace does
    assert_eq!(split_words("a\u{a0}b"), strings(&["a", "b"]));
    assert_eq!(split_words("a\u{3000}b"), strings(&["a", "b"]));
    assert_eq!(split_words("a\u{2000}b\u{202f}c\u{2028}d"), strings(&["a", "b", "c", "d"]));
    assert_eq!(split_input("a\u{3000}b", 1), strings(&["a", "b"]));
    assert_eq!(split_input("aa\u{a0}bb", 6), strings(&["aa bb"]));
    assert_eq!(split_input("aa\u{a0}bb", 5), strings(&["aa", "bb"]));
    // joining normalizes every separator to a single ASCII space
    assert_eq!(split_input("one\u{a0}\u{3000}two\u{85}three", 100), strings(&["one two three"]));
}

#[test]
fn build_chunks_groups_prepared_words() {
    let words = strings(&["one", "two", "three"]);
    assert_eq!(build_chunks(&words, 7), strings(&["one", "two", "three"]));
    assert_eq!(build_chunks(&words, 8), strings(&["one two", "three"]));
    assert_eq!(build_chunks(&words, 14), strings(&["one two three"]));
    assert_eq!(build_chunks(&Vec::new(), 7), Vec::<String>::new());
}
