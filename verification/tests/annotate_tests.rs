use bopo_wiki::annotate::annotate_text;
use bopo_wiki::{insert_bopomofo, is_mobile, synthesize_char_and_bopo, transform_segment};
use bopo_wiki::{Dictionary, Segmenter};

fn cv(s: &str) -> Vec<char> {
    s.chars().collect()
}

fn sv(v: &[char]) -> String {
    v.iter().collect()
}

fn small_dict() -> Dictionary {
    Dictionary::load("你好,0,ㄋㄧˇ ㄏㄠˇ").unwrap()
}

#[test]
fn bopomofo_it_should_replace_relative_urls() {
    let dict = small_dict();
    let seg = Segmenter::new(&dict);
    let input = "你好";
    let output = "<ruby>你<rt>ㄋㄧ</rt><rt>ˇ</rt></ruby><ruby>好<rt>ㄏㄠ</rt><rt>ˇ</rt></ruby>";
    assert_eq!(insert_bopomofo(input, &dict, &seg), output)
}

#[test]
fn repeated_word_is_cut_and_annotated_per_occurrence() {
    let dict = small_dict();
    let seg = Segmenter::new(&dict);
    let one = "<ruby>你<rt>ㄋㄧ</rt><rt>ˇ</rt></ruby><ruby>好<rt>ㄏㄠ</rt><rt>ˇ</rt></ruby>";
    let two = format!("{}{}", one, one);
    assert_eq!(insert_bopomofo("你好你好", &dict, &seg), two);
}

#[test]
fn tone_mark_is_split_into_its_own_annotation() {
    let chars = cv("你");
    let parts = vec![cv("ㄋㄧˇ")];
    let out = synthesize_char_and_bopo(chars, parts);
    assert_eq!(sv(&out), "<ruby>你<rt>ㄋㄧ</rt><rt>ˇ</rt></ruby>");
}

#[test]
fn unmarked_syllable_renders_one_annotation() {
    let chars = cv("天");
    let parts = vec![cv("ㄊㄧㄢ")];
    let out = synthesize_char_and_bopo(chars, parts);
    assert_eq!(sv(&out), "<ruby>天<rt>ㄊㄧㄢ</rt></ruby>");
}

#[test]
fn mismatched_part_count_passes_through() {
    let dict = Dictionary::load("你好,0,ㄋㄧˇ").unwrap();
    let out = transform_segment(&cv("你好"), &dict);
    assert_eq!(sv(&out), "你好");
}

#[test]
fn absent_key_passes_through() {
    let dict = small_dict();
    let out = transform_segment(&cv("再見"), &dict);
    assert_eq!(sv(&out), "再見");
}

#[test]
fn non_han_segment_passes_through() {
    let dict = small_dict();
    let out = transform_segment(&cv("hello, world!"), &dict);
    assert_eq!(sv(&out), "hello, world!");
}

#[test]
fn annotate_text_without_han_is_unchanged() {
    let dict = small_dict();
    let seg = Segmenter::new(&dict);
    let out = annotate_text(&cv("plain latin text 123"), &dict, &seg);
    assert_eq!(sv(&out), "plain latin text 123");
}

#[test]
fn dictionary_dedup_first_wins() {
    let dict = Dictionary::load("好,X,A\n好,X,B").unwrap();
    let got = dict.get(&cv("好")).expect("entry for the key");
    assert_eq!(sv(got), "A");
}

#[test]
fn dictionary_skips_comments_empty_and_short_rows() {
    let dict = Dictionary::load("# comment\n\nshort,row\n好,X,ㄏㄠˇ").unwrap();
    assert_eq!(dict.len(), 1);
    let got = dict.get(&cv("好")).expect("entry for the key");
    assert_eq!(sv(got), "ㄏㄠˇ");
}

#[test]
fn dictionary_load_fails_on_empty_source() {
    assert!(Dictionary::load("").is_err());
}

#[test]
fn dictionary_load_fails_when_no_row_is_usable() {
    assert!(Dictionary::load("# only,a,comment\n\ntwo,fields").is_err());
}

#[test]
fn dictionary_keeps_crlf_sources_clean() {
    let dict = Dictionary::load("好,X,ㄏㄠˇ\r\n你,X,ㄋㄧˇ\r\n").unwrap();
    let got = dict.get(&cv("你")).expect("entry for the key");
    assert_eq!(sv(got), "ㄋㄧˇ");
}

#[test]
fn is_mobile_spots_mixed_case_markers() {
    assert!(is_mobile(Some("Mozilla/5.0 (iPhone; CPU iPhone OS 17_0)")));
    assert!(is_mobile(Some("Mozilla/5.0 (Linux; Android 14) Mobile Safari")));
    assert!(is_mobile(Some("Mozilla/4.0 (compatible; Windows Phone 8.1)")));
}

#[test]
fn is_mobile_rejects_desktop_and_missing_agents() {
    assert!(!is_mobile(Some("Mozilla/5.0 (X11; Linux x86_64) Firefox/128.0")));
    assert!(!is_mobile(None));
}

/// Drop every `<rt>...</rt>` annotation whole and every other tag,
/// keeping the remaining text: the inverse of annotation.
fn strip_markup(s: &str) -> String {
    let cs: Vec<char> = s.chars().collect();
    let mut out = String::new();
    let mut i = 0;
    while i < cs.len() {
        if cs[i] == '<' {
            if cs[i..].starts_with(&['<', 'r', 't', '>']) {
                i += 4;
                while i < cs.len() && !cs[i..].starts_with(&['<', '/', 'r', 't', '>']) {
                    i += 1;
                }
                i += 5;
            } else {
                while i < cs.len() && cs[i] != '>' {
                    i += 1;
                }
                i += 1;
            }
        } else {
            out.push(cs[i]);
            i += 1;
        }
    }
    out
}

#[test]
fn annotation_preserves_every_character() {
    let dict = small_dict();
    let seg = Segmenter::new(&dict);
    for text in ["你好", "早安你好嗎?", "Latin 與 你好 mixed", "標點。你好!你好?"] {
        let out = insert_bopomofo(text, &dict, &seg);
        assert_eq!(strip_markup(&out), text);
    }
}
