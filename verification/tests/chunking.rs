use chunk_translate::chunker::divide_into_chunks;

fn numbered_lines(n: usize) -> Vec<String> {
    (0..n).map(|i| format!("line {}", i)).collect()
}

#[test]
fn text_without_line_feed_is_one_chunk() {
    for k in [0usize, 1, 2, 20, usize::MAX] {
        assert_eq!(divide_into_chunks("hello world".to_string(), k), vec!["hello world".to_string()]);
    }
}

#[test]
fn empty_text_is_one_empty_chunk() {
    assert_eq!(divide_into_chunks(String::new(), 3), vec![String::new()]);
    assert_eq!(divide_into_chunks(String::new(), 0), vec![String::new()]);
}

#[test]
fn zero_lines_per_chunk_keeps_the_text_whole() {
    let text = "a\nb\nc\n".to_string();
    assert_eq!(divide_into_chunks(text.clone(), 0), vec![text]);
}

#[test]
fn first_chunk_holds_one_line_more() {
    let chunks = divide_into_chunks("l0\nl1\nl2\nl3\nl4\nl5".to_string(), 2);
    assert_eq!(chunks, vec!["l0\nl1\nl2\n".to_string(), "l3\nl4\n".to_string(), "l5\n".to_string()]);
}

#[test]
fn one_line_per_chunk() {
    assert_eq!(divide_into_chunks("a\nb\nc".to_string(), 1), vec!["a\nb\n".to_string(), "c\n".to_string()]);
    assert_eq!(
        divide_into_chunks("a\nb\nc\nd".to_string(), 1),
        vec!["a\nb\n".to_string(), "c\n".to_string(), "d\n".to_string()]
    );
}

#[test]
fn no_short_chunk_where_the_lines_run_out_on_a_boundary() {
    let chunks = divide_into_chunks("l0\nl1\nl2\nl3\nl4".to_string(), 2);
    assert_eq!(chunks, vec!["l0\nl1\nl2\n".to_string(), "l3\nl4\n".to_string()]);
}

#[test]
fn more_lines_per_chunk_than_lines() {
    assert_eq!(divide_into_chunks("a\nb".to_string(), 10), vec!["a\nb\n".to_string()]);
    assert_eq!(divide_into_chunks("a\nb".to_string(), usize::MAX), vec!["a\nb\n".to_string()]);
}

#[test]
fn text_that_ends_in_a_line_feed_has_an_empty_last_line() {
    assert_eq!(divide_into_chunks("a\nb\n".to_string(), 5), vec!["a\nb\n\n".to_string()]);
    assert_eq!(divide_into_chunks("a\nb\n".to_string(), 1), vec!["a\nb\n".to_string(), "\n".to_string()]);
    assert_eq!(divide_into_chunks("\n".to_string(), 1), vec!["\n\n".to_string()]);
}

#[test]
fn only_the_line_feed_ends_a_line() {
    assert_eq!(divide_into_chunks("a\r\nb\rc".to_string(), 1), vec!["a\r\nb\rc\n".to_string()]);
}

#[test]
fn characters_of_several_bytes_stay_whole() {
    let chunks = divide_into_chunks("é\nü\n日本語".to_string(), 1);
    assert_eq!(chunks, vec!["é\nü\n".to_string(), "日本語\n".to_string()]);
}

#[test]
fn forty_five_lines_by_twenty() {
    let lines = numbered_lines(45);
    let text = lines.join("\n");
    let chunks = divide_into_chunks(text.clone(), 20);
    assert_eq!(chunks.len(), 3);
    assert_eq!(chunks[0].matches('\n').count(), 21);
    assert_eq!(chunks[1].matches('\n').count(), 20);
    assert_eq!(chunks[2].matches('\n').count(), 4);
    assert!(chunks[0].starts_with("line 0\n") && chunks[0].ends_with("line 20\n"));
    assert!(chunks[1].starts_with("line 21\n") && chunks[1].ends_with("line 40\n"));
    assert!(chunks[2].starts_with("line 41\n") && chunks[2].ends_with("line 44\n"));
    assert_eq!(chunks.concat(), text + "\n");
}

#[test]
fn chunks_join_to_the_text_and_one_line_feed() {
    let texts = ["a\nb", "a\nb\n", "\n\n\n", "x\n\ny\nz\n\n", "one\ntwo\nthree\nfour\nfive\nsix\nseven"];
    for text in texts {
        for k in 1usize..9 {
            let chunks = divide_into_chunks(text.to_string(), k);
            assert_eq!(chunks.concat(), format!("{}\n", text));
            assert!(chunks.iter().all(|chunk| !chunk.is_empty()));
        }
    }
}

#[test]
fn number_of_chunks_rounds_up_the_lines_behind_the_first() {
    for n in 2usize..40 {
        let text = numbered_lines(n).join("\n");
        for k in 1usize..12 {
            let chunks = divide_into_chunks(text.clone(), k);
            assert_eq!(chunks.len(), (n - 1 + k - 1) / k);
        }
    }
}

#[test]
fn number_of_chunks_for_short_texts() {
    for k in 1usize..12 {
        for n in 1usize..=(2 * k + 1) {
            let text = numbered_lines(n).join("\n");
            let chunks = divide_into_chunks(text, k);
            assert_eq!(chunks.len(), (n + k) / (k + 1));
        }
    }
}

#[test]
fn number_of_chunks_where_the_first_chunk_rule_does_not_give_it() {
    let chunks = divide_into_chunks(numbered_lines(4).join("\n"), 1);
    assert_eq!(chunks.len(), 3);
    assert_ne!(chunks.len(), (4 + 1) / 2);
}
