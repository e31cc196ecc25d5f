use mmseg::{DictError, MMSeg};

const CHARS: &str = "2000 研\n1500 究\n3000 生\n800 命\n1200 来\n900 源\n";
const WORDS: &str = "2 研究\n3 研究生\n2 生命\n2 来源\n";

fn loaded() -> MMSeg {
    let mut seg = MMSeg::new();
    assert_eq!(seg.load_dict(CHARS, WORDS), Ok(()));
    seg
}

fn strs(v: &[&str]) -> Vec<String> {
    v.iter().map(|s| s.to_string()).collect()
}

#[test]
fn test_mmseg() {
    let mmseg = MMSeg::new();
    let simple = mmseg.cut_simple("研究生命来源, this is a test 1988/02/29");
    println!("simple: {:#?}", simple);
    let complex = mmseg
        .cut("我是拖拉机学院手扶拖拉机专业的。不用多久，我就会升职加薪，当上CEO，走上人生巅峰。");
    println!("complex: {:#?}", complex);
}

#[test]
fn variance_rule_prefers_equal_lengths() {
    let seg = loaded();
    assert_eq!(seg.cut("研究生命来源"), strs(&["研究", "生命", "来源"]));
}

#[test]
fn simple_mode_takes_longest_word() {
    let seg = loaded();
    assert_eq!(seg.cut_simple("研究生命来源"), strs(&["研究生", "命", "来源"]));
}

#[test]
fn digits_split_at_slashes() {
    let seg = loaded();
    assert_eq!(seg.cut("1988/02/29"), strs(&["1988", "02", "29"]));
}

#[test]
fn words_split_at_spaces() {
    let seg = loaded();
    assert_eq!(seg.cut("this is a test"), strs(&["this", "is", "a", "test"]));
}

#[test]
fn mixed_text() {
    let seg = loaded();
    assert_eq!(
        seg.cut("研究生命来源, this is a test 1988/02/29"),
        strs(&["研究", "生命", "来源", "this", "is", "a", "test", "1988", "02", "29"])
    );
}

#[test]
fn unknown_chinese_character_is_dropped() {
    let seg = loaded();
    assert_eq!(seg.cut("研究我来源"), strs(&["研究", "来源"]));
    assert_eq!(seg.cut_simple("我"), strs(&[]));
    assert_eq!(seg.cut("我abc"), strs(&["abc"]));
}

#[test]
fn empty_and_punctuation_only() {
    let seg = loaded();
    assert_eq!(seg.cut(""), strs(&[]));
    assert_eq!(seg.cut_simple(""), strs(&[]));
    assert_eq!(seg.cut(", ./!?；。"), strs(&[]));
}

#[test]
fn empty_dictionary_keeps_ascii_runs_only() {
    let seg = MMSeg::new();
    assert_eq!(seg.cut("中文abc, x1 研究Z"), strs(&["abc", "x1", "Z"]));
    assert_eq!(seg.cut_simple("中文abc"), strs(&["abc"]));
}

#[test]
fn ascii_runs_are_maximal() {
    let seg = loaded();
    assert_eq!(seg.cut("ab研究cd-ef"), strs(&["ab", "研究", "cd", "ef"]));
}

#[test]
fn rejoined_tokens_segment_the_same() {
    let seg = loaded();
    let first = seg.cut("研究生命来源, this is a test 1988/02/29");
    let joined = first.join(" ");
    assert_eq!(seg.cut(&joined), first);
}

#[test]
fn complex_total_length_at_least_simple() {
    let seg = loaded();
    // simple takes 研究生 (length 3); the chosen chunk 研究/生命 has length 4
    assert_eq!(seg.cut_simple("研究生命")[0], "研究生");
    assert_eq!(seg.cut("研究生命"), strs(&["研究", "生命"]));
}

#[test]
fn longest_chunk_wins() {
    let mut seg = MMSeg::new();
    assert_eq!(seg.load_dict("5 甲\n5 乙\n5 丙\n", "2 甲乙\n").is_ok(), true);
    assert_eq!(seg.cut("甲乙丙"), strs(&["甲乙", "丙"]));
}

#[test]
fn average_length_rule() {
    // 甲乙/丙丁 and 甲/乙/丙丁 both cover four characters; two words win
    let mut seg = MMSeg::new();
    assert_eq!(seg.load_dict("5 甲\n5 乙\n5 丙\n5 丁\n", "2 甲乙\n2 丙丁\n"), Ok(()));
    assert_eq!(seg.cut("甲乙丙丁"), strs(&["甲乙", "丙丁"]));
}

#[test]
fn frequency_rule() {
    // 甲乙/丙 and 甲/乙丙 tie on the first three rules; 丙 is more frequent than 甲
    let mut seg = MMSeg::new();
    assert_eq!(seg.load_dict("10 甲\n5 乙\n100 丙\n", "2 甲乙\n2 乙丙\n"), Ok(()));
    assert_eq!(seg.cut("甲乙丙"), strs(&["甲乙", "丙"]));
    let mut seg2 = MMSeg::new();
    assert_eq!(seg2.load_dict("100 甲\n5 乙\n10 丙\n", "2 甲乙\n2 乙丙\n"), Ok(()));
    assert_eq!(seg2.cut("甲乙丙"), strs(&["甲", "乙丙"]));
}

#[test]
fn zero_frequency_character_loses() {
    // the word dictionary sets 丙 to frequency zero
    let mut seg = MMSeg::new();
    assert_eq!(seg.load_dict("10 甲\n5 乙\n100 丙\n", "2 甲乙\n2 乙丙\n1 丙\n"), Ok(()));
    assert_eq!(seg.cut("甲乙丙"), strs(&["甲", "乙丙"]));
}

#[test]
fn load_dict_accepts_trailing_blanks_and_crlf() {
    let mut seg = MMSeg::new();
    assert_eq!(seg.load_dict("7 研 \r\n8 究\u{3000}\n", "2 研究\t\u{0C}\n"), Ok(()));
    assert_eq!(seg.cut("研究"), strs(&["研究"]));
}

#[test]
fn load_dict_rejects_malformed_lines() {
    let mut seg = MMSeg::new();
    assert_eq!(seg.load_dict("x 研\n", ""), Err(DictError::Format));
    assert_eq!(seg.load_dict("7研\n", ""), Err(DictError::Format));
    assert_eq!(seg.load_dict("7 研究\n", ""), Err(DictError::Format));
    assert_eq!(seg.load_dict("7 研\n\n", ""), Err(DictError::Format));
    assert_eq!(seg.load_dict("4294967296 研\n", ""), Err(DictError::Format));
    assert_eq!(seg.load_dict("", "3 研究\n"), Err(DictError::Format));
    assert_eq!(seg.load_dict("", "2 研 究\n"), Err(DictError::Format));
    // nothing was loaded
    assert_eq!(seg.cut("研究"), strs(&[]));
    assert_eq!(seg.load_dict("4294967295 研\n", "2 研究"), Ok(()));
    assert_eq!(seg.cut("研究"), strs(&["研究"]));
}

#[test]
fn later_entry_replaces_earlier() {
    let mut seg = MMSeg::new();
    assert_eq!(seg.load_dict("7 研\n", ""), Ok(()));
    assert_eq!(seg.cut("研"), strs(&["研"]));
    assert_eq!(seg.load_dict("", "2 研究\n"), Ok(()));
    assert_eq!(seg.cut("研究研"), strs(&["研究", "研"]));
}

#[test]
fn characters_outside_the_range_are_not_chinese() {
    let mut seg = MMSeg::new();
    // U+9FA6 lies just past the range, U+4E00 is its first code point
    assert_eq!(seg.load_dict("5 \u{9FA6}\n5 \u{4E00}\n", ""), Ok(()));
    assert_eq!(seg.cut("\u{9FA6}\u{4E00}"), strs(&["\u{4E00}"]));
}

#[test]
fn tokens_are_nonempty_and_a_subsequence() {
    let seg = loaded();
    let text = "研究生命来源, this is a test 1988/02/29 我们";
    for toks in [seg.cut(text), seg.cut_simple(text)] {
        assert!(toks.iter().all(|t| !t.is_empty()));
        let mut rest = text.chars();
        for c in toks.concat().chars() {
            assert!(rest.any(|x| x == c));
        }
    }
}

#[test]
fn rejoined_simple_tokens_segment_the_same() {
    let seg = loaded();
    let first = seg.cut_simple("研究生命来源,abc 研究生 x9");
    assert_eq!(first, strs(&["研究生", "命", "来源", "abc", "研究生", "x9"]));
    assert_eq!(seg.cut_simple(&first.join(" ")), first);
}

#[test]
fn word_then_unknown_remainder() {
    let mut seg = MMSeg::new();
    assert_eq!(seg.load_dict("", "2 甲甲\n"), Ok(()));
    assert_eq!(seg.cut("甲甲甲"), strs(&["甲甲"]));
    assert_eq!(seg.cut("甲甲甲甲"), strs(&["甲甲", "甲甲"]));
    assert_eq!(seg.cut_simple("甲甲甲"), strs(&["甲甲"]));
}

#[test]
fn punctuation_between_runs_is_skipped() {
    let seg = loaded();
    assert_eq!(seg.cut("  ,,ab;; cd研究!!"), strs(&["ab", "cd", "研究"]));
}

#[test]
fn load_dict_trims_unicode_whitespace() {
    let mut seg = MMSeg::new();
    assert_eq!(
        seg.load_dict("5 研\u{A0}\n6 究\u{2003}\u{85}\n", "2 研究\u{205F}\u{2028}\n"),
        Ok(())
    );
    assert_eq!(seg.cut("研究"), strs(&["研究"]));
    let mut single = MMSeg::new();
    assert_eq!(single.load_dict("5 研\u{A0}\n", ""), Ok(()));
    assert_eq!(single.cut("研研"), strs(&["研", "研"]));
    // whitespace inside the word is still malformed
    assert_eq!(single.load_dict("", "2 研\u{A0}究\n"), Err(DictError::Format));
}

#[test]
fn load_dict_accepts_plus_sign() {
    let mut seg = MMSeg::new();
    assert_eq!(seg.load_dict("+5 研\n", "+2 研究\n"), Ok(()));
    assert_eq!(seg.cut("研究"), strs(&["研究"]));
    assert_eq!(seg.load_dict("+ 研\n", ""), Err(DictError::Format));
    assert_eq!(seg.load_dict("++5 研\n", ""), Err(DictError::Format));
    assert_eq!(seg.load_dict("-5 研\n", ""), Err(DictError::Format));
}
