use strsplit::{prefix_until_char, Delimiter, StrSplit};

#[test]
fn it_works() {
    let input = "a b c d e";
    let mut split = StrSplit::new(input, " ");
    let letters: Vec<&str> = split.collect_remaining();

    assert_eq!(letters, vec!["a", "b", "c", "d", "e"]);
}

#[test]
fn tail() {
    let input = "a b c d ";
    let mut split = StrSplit::new(input, " ");
    let mut letters: Vec<&str> = Vec::new();
    while let Some(seg) = split.next() {
        letters.push(seg);
    }

    assert_eq!(letters, vec!["a", "b", "c", "d", ""]);
}

#[test]
fn prefix_until_char_test() {
    assert_eq!(prefix_until_char("hello world", 'w'), "hello ");
}

#[test]
fn empty_haystack_gives_one_empty_segment() {
    let mut split = StrSplit::new("", " ");
    assert_eq!(split.collect_remaining(), vec![""]);
}

#[test]
fn delimiter_equal_to_remaining_text() {
    let mut split = StrSplit::new("aaa", "a");
    assert_eq!(split.collect_remaining(), vec!["", "", "", ""]);
}

#[test]
fn delimiter_absent_gives_whole_haystack() {
    let mut split = StrSplit::new("abc", "x");
    assert_eq!(split.collect_remaining(), vec!["abc"]);
}

#[test]
fn multi_character_delimiter() {
    let mut split = StrSplit::new("ab--cd--ef", "--");
    assert_eq!(split.collect_remaining(), vec!["ab", "cd", "ef"]);
}

#[test]
fn char_delimiter_multi_byte() {
    let mut split = StrSplit::new("héllo", 'é');
    assert_eq!(split.collect_remaining(), vec!["h", "llo"]);
}

#[test]
fn literal_delimiter_multi_byte() {
    let mut split = StrSplit::new("héllo", "é");
    assert_eq!(split.collect_remaining(), vec!["h", "llo"]);
}

#[test]
fn multi_byte_content_around_delimiter() {
    let mut split = StrSplit::new("größe:zähler", ':');
    assert_eq!(split.collect_remaining(), vec!["größe", "zähler"]);
}

#[test]
fn first_pull_always_yields_then_stays_exhausted() {
    let mut split = StrSplit::new("", "x");
    assert_eq!(split.next(), Some(""));
    assert_eq!(split.next(), None);
    assert_eq!(split.next(), None);
}

#[test]
fn prefix_until_char_absent_gives_whole_text() {
    assert_eq!(prefix_until_char("hello", 'x'), "hello");
}

#[test]
fn segment_count_is_match_count_plus_one() {
    let input = "a b c d ";
    let mut matches: usize = 0;
    let mut rest: &str = input;
    while let Some((_start, end)) = " ".find_next(rest) {
        matches += 1;
        rest = &rest[end..];
    }
    assert_eq!(matches, 4);
    let mut split = StrSplit::new(input, " ");
    assert_eq!(split.collect_remaining().len(), matches + 1);
}

#[test]
fn joining_segments_reconstructs_haystack() {
    let input = "x,,y,z";
    let mut split = StrSplit::new(input, ",");
    let segments = split.collect_remaining();
    assert_eq!(segments.join(","), input);
}

#[test]
fn matches_are_non_overlapping_left_to_right() {
    let input = "aé aé aé";
    let mut spans: Vec<(usize, usize)> = Vec::new();
    let mut base: usize = 0;
    let mut rest: &str = input;
    while let Some((start, end)) = " ".find_next(rest) {
        spans.push((base + start, base + end));
        base += end;
        rest = &rest[end..];
    }
    assert_eq!(spans, vec![(3, 4), (7, 8)]);
    for pair in spans.windows(2) {
        assert!(pair[1].0 >= pair[0].1);
    }
}

#[test]
fn find_next_reports_byte_offsets() {
    assert_eq!('l'.find_next("héllo"), Some((3, 4)));
    assert_eq!("llo".find_next("héllo"), Some((3, 6)));
    assert_eq!('é'.find_next("héllo"), Some((1, 3)));
    assert_eq!("é".find_next("héllo"), Some((1, 3)));
    assert_eq!('x'.find_next("héllo"), None);
    assert_eq!("xy".find_next("héllo"), None);
}

#[test]
fn byte_offsets_slice_the_haystack_cleanly() {
    let input = "héllo";
    let (start, end) = 'é'.find_next(input).unwrap();
    assert_eq!(&input[..start], "h");
    assert_eq!(&input[start..end], "é");
    assert_eq!(&input[end..], "llo");
    assert_eq!(end - start, 'é'.len_utf8());
}
