use chunk_translate::chunker::{extract_between_tags, extract_translated_from_response};

fn with_std_split(text: &str, open: &str, close: &str) -> String {
    if !text.contains(open) {
        return String::new();
    }
    let mut res = String::new();
    for segment in text.split(open).skip(1) {
        match segment.split(close).next() {
            Some(kept) if segment.contains(close) => res.push_str(kept),
            _ => res.push_str(segment),
        }
    }
    res
}

#[test]
fn extracts_a_single_pair() {
    assert_eq!(extract_between_tags("<a>hello</a>", "<a>", "</a>"), "hello");
}

#[test]
fn joins_all_pairs_in_order() {
    assert_eq!(extract_between_tags("<a>hi</a><a>there</a>", "<a>", "</a>"), "hithere");
}

#[test]
fn unclosed_tag_takes_the_rest() {
    assert_eq!(extract_between_tags("<a>unclosed", "<a>", "</a>"), "unclosed");
}

#[test]
fn nothing_without_the_open_tag() {
    assert_eq!(extract_between_tags("plain text </a>", "<a>", "</a>"), "");
    assert_eq!(extract_between_tags("", "<a>", "</a>"), "");
    assert_eq!(extract_between_tags("<a", "<a>", "</a>"), "");
}

#[test]
fn text_outside_the_pairs_is_left_out() {
    assert_eq!(extract_between_tags("x<a>1</a> and <a>2</a> end", "<a>", "</a>"), "12");
    assert_eq!(extract_between_tags("</a>x<a>y</a>", "<a>", "</a>"), "y");
}

#[test]
fn open_tag_inside_an_open_pair_starts_a_new_piece() {
    assert_eq!(extract_between_tags("<a>1<a>2</a>3", "<a>", "</a>"), "12");
}

#[test]
fn only_the_first_close_tag_of_a_piece_counts() {
    assert_eq!(extract_between_tags("<a>1</a>2</a>3", "<a>", "</a>"), "1");
}

#[test]
fn tags_match_from_the_left_without_overlap() {
    assert_eq!(extract_between_tags("aaa", "aa", "x"), "a");
    assert_eq!(extract_between_tags("aaaa", "aa", "x"), "");
    assert_eq!(extract_between_tags("aaaaa", "aa", "x"), "a");
}

#[test]
fn empty_close_tag_cuts_every_piece_to_nothing() {
    assert_eq!(extract_between_tags("<a>xy<a>z", "<a>", ""), "");
}

#[test]
fn empty_open_tag_stands_before_every_character() {
    assert_eq!(extract_between_tags("abc", "", "b"), "ac");
    assert_eq!(extract_between_tags("abc", "", "bc"), "abc");
    assert_eq!(extract_between_tags("abc", "", ""), "");
    assert_eq!(extract_between_tags("", "", "x"), "");
}

#[test]
fn same_tag_on_both_sides() {
    assert_eq!(extract_between_tags("|a|b|", "|", "|"), "ab");
}

#[test]
fn characters_of_several_bytes_between_tags() {
    assert_eq!(extract_between_tags("«é»日本語«/é»ü", "«é»", "«/é»"), "日本語");
}

#[test]
fn agrees_with_splitting_by_the_standard_library() {
    let texts = [
        "", "a", "<o>", "<o>x</o>", "<o><o></o></o>", "x<o>y", "</o><o>", "<o>1</o><o>2</o><o>3",
        "<<o>>x<</o>>", "<o<o>x</o</o>", "ab\nab\nab", "aaaaaa", "<o>é</o>ü<o>日本</o>",
    ];
    let tags = ["<o>", "</o>", "a", "aa", "ab", "", "\n", "<", "é"];
    for text in texts {
        for open in tags {
            for close in tags {
                assert_eq!(
                    extract_between_tags(text, open, close),
                    with_std_split(text, open, close),
                    "text {:?}, open {:?}, close {:?}",
                    text,
                    open,
                    close
                );
            }
        }
    }
}

#[test]
fn response_answer_is_taken_from_output_tags() {
    let response = "noise<output>Hallo\nWelt\n</output>more<output>!</output>".to_string();
    assert_eq!(extract_translated_from_response(response), "Hallo\nWelt\n!");
}

#[test]
fn response_without_output_tags_has_no_answer() {
    assert_eq!(extract_translated_from_response("<document>x</document>".to_string()), "");
    assert_eq!(extract_translated_from_response("Chat error: HTTP error: refused".to_string()), "");
}
