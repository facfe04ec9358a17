use chunk_relay::segmenter::{segment, split_at_positions, Segmentation};

fn chars(s: &str) -> Vec<char> {
    s.chars().collect()
}

fn text_of(v: &Vec<char>) -> String {
    v.iter().collect()
}

fn texts_of(vs: &Vec<Vec<char>>) -> Vec<String> {
    vs.iter().map(text_of).collect()
}

fn rejoin(vs: &Vec<Vec<char>>, d: char) -> String {
    texts_of(vs).join(&d.to_string())
}

#[test]
fn lines_split_evenly() {
    let text = chars("a\nb\nc\nd");
    let r = split_at_positions(&text, 2);
    assert_eq!(texts_of(&r), vec!["a\nb", "c\nd"]);
    assert_eq!(rejoin(&r, '\n'), "a\nb\nc\nd");
}

#[test]
fn lines_remainder_merges_last_two() {
    let text = chars("a\nb\nc\nd\ne");
    let r = split_at_positions(&text, 2);
    assert_eq!(texts_of(&r), vec!["a\nb", "c\nd\ne"]);
    assert_eq!(rejoin(&r, '\n'), "a\nb\nc\nd\ne");
}

#[test]
fn line_chunk_count_within_target() {
    let text = chars("1\n2\n3\n4\n5\n6\n7");
    let r = split_at_positions(&text, 3);
    assert_eq!(r.len(), 3);
    assert_eq!(texts_of(&r), vec!["1\n2", "3\n4", "5\n6\n7"]);
    assert_eq!(rejoin(&r, '\n'), "1\n2\n3\n4\n5\n6\n7");
}

#[test]
fn fallback_prefers_dot_over_question() {
    let text = chars("one. two? three.");
    match segment(&text, 10) {
        Segmentation::Grouped { delimiter, chunks } => {
            assert_eq!(delimiter, '.');
            assert_eq!(rejoin(&chunks, '.'), "one. two? three.");
        },
        Segmentation::Ungrouped { .. } => panic!("expected grouped result"),
    }
}

#[test]
fn fallback_question_when_no_dot() {
    let text = chars("a? b? c");
    match segment(&text, 2) {
        Segmentation::Grouped { delimiter, chunks } => {
            assert_eq!(delimiter, '?');
            assert_eq!(texts_of(&chunks), vec!["a", " b? c"]);
        },
        Segmentation::Ungrouped { .. } => panic!("expected grouped result"),
    }
}

#[test]
fn no_delimiter_gives_single_element() {
    let text = chars("hello world");
    match segment(&text, 5) {
        Segmentation::Ungrouped { lines } => {
            assert_eq!(texts_of(&lines), vec!["hello world"]);
        },
        Segmentation::Grouped { .. } => panic!("expected ungrouped result"),
    }
    let r = split_at_positions(&text, 5);
    assert_eq!(texts_of(&r), vec!["hello world"]);
}

#[test]
fn empty_text_gives_one_empty_chunk() {
    let text = chars("");
    let r = split_at_positions(&text, 1);
    assert_eq!(texts_of(&r), vec![""]);
}

#[test]
fn zero_count_treated_as_one() {
    let text = chars("a\nb\nc");
    assert_eq!(texts_of(&split_at_positions(&text, 0)), texts_of(&split_at_positions(&text, 1)));
}

#[test]
fn fallback_with_fewer_segments_than_chunks() {
    let text = chars("a.b");
    let r = split_at_positions(&text, 5);
    assert_eq!(texts_of(&r), vec!["a.b"]);
}

#[test]
fn single_chunk_holds_whole_text() {
    let text = chars("x\ny\nz");
    let r = split_at_positions(&text, 1);
    assert_eq!(texts_of(&r), vec!["x\ny\nz"]);
}

#[test]
fn large_remainder_still_reconstructs() {
    let text = chars("l0\nl1\nl2\nl3\nl4\nl5\nl6\nl7\nl8\nl9\nl10");
    let r = split_at_positions(&text, 4);
    assert_eq!(texts_of(&r), vec!["l0\nl1", "l2\nl3", "l4\nl5", "l6\nl7", "l8\nl9\nl10"]);
    assert_eq!(rejoin(&r, '\n'), text_of(&text));
}

#[test]
fn merged_chunk_covers_every_segment() {
    let text = chars("s0\ns1\ns2\ns3\ns4\ns5\ns6");
    let r = split_at_positions(&text, 3);
    let recovered: Vec<String> = texts_of(&r)
        .iter()
        .flat_map(|c| c.split('\n').map(str::to_string).collect::<Vec<_>>())
        .collect();
    assert_eq!(recovered, vec!["s0", "s1", "s2", "s3", "s4", "s5", "s6"]);
}
