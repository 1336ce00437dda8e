use bopo_wiki::url::{rewrite_href, rewrite_src, rewrite_srcset};
use bopo_wiki::{transform_page, Dictionary, RewriteConfig, Segmenter};

fn cv(s: &str) -> Vec<char> {
    s.chars().collect()
}

fn sv(v: &[char]) -> String {
    v.iter().collect()
}

fn wiki_config() -> RewriteConfig {
    RewriteConfig {
        host: cv("https://zh.wikipedia.org"),
        wiki_prefix: cv("/wiki/"),
        lang_prefix: cv("/zh-tw/"),
        style: cv("<style>rt{writing-mode:vertical-rl}</style>"),
    }
}

fn small_dict() -> Dictionary {
    Dictionary::load("你好,0,ㄋㄧˇ ㄏㄠˇ").unwrap()
}

fn page(input: &str) -> String {
    let cfg = wiki_config();
    let dict = small_dict();
    let seg = Segmenter::new(&dict);
    transform_page(input.to_string(), &cfg, &dict, &seg)
}

#[test]
fn lib_it_should_replace_relative_urls() {
    let input = "<a href=\"/a.html\"></a>";
    let output = "<a href=\"https://zh.wikipedia.org/a.html\"></a>";
    assert_eq!(page(input), output)
}

#[test]
fn it_should_replace_wiki_with_lang() {
    let input = "<a href=\"/wiki/title\"></a>";
    let output = "<a href=\"/zh-tw/title\"></a>";
    assert_eq!(page(input), output)
}

#[test]
fn it_should_add_bopomofo_to_body_text() {
    let input = "<body><p>你好</p></body>";
    let output =
        "<body><p><ruby>你<rt>ㄋㄧ</rt><rt>ˇ</rt></ruby><ruby>好<rt>ㄏㄠ</rt><rt>ˇ</rt></ruby></p></body>";
    assert_eq!(page(input), output)
}

#[test]
fn it_should_not_add_bopomofo_to_nonbody_text() {
    let input = "<p>你好</p>";
    assert_eq!(page(input), input.to_string())
}

#[test]
fn han_in_attribute_is_never_annotated() {
    let input = "<body><p title=\"你好\">x</p></body>";
    assert_eq!(page(input), input.to_string())
}

#[test]
fn absolute_urls_stay_as_they_are() {
    let input = "<a href=\"https://example.org/x\"></a><img src=\"http://example.org/i.png\">";
    assert_eq!(page(input), input.to_string())
}

#[test]
fn protocol_relative_urls_get_https() {
    let input = "<img src=\"//upload.wikimedia.org/i.png\">";
    let output = "<img src=\"https://upload.wikimedia.org/i.png\">";
    assert_eq!(page(input), output)
}

#[test]
fn src_has_no_wiki_case() {
    let input = "<img src=\"/wiki/i.png\">";
    let output = "<img src=\"https://zh.wikipedia.org/wiki/i.png\">";
    assert_eq!(page(input), output)
}

#[test]
fn srcset_entries_are_rewritten_and_rejoined() {
    let input = "<img srcset=\"/a.png 1x,  //b.example/b.png 2x\">";
    let output =
        "<img srcset=\"https://zh.wikipedia.org/a.png 1x, https://b.example/b.png 2x\">";
    assert_eq!(page(input), output)
}

#[test]
fn style_is_injected_at_end_of_head_once() {
    let input = "<head><title>t</title></head><head></head>";
    let output = "<head><title>t</title><style>rt{writing-mode:vertical-rl}</style></head><head></head>";
    assert_eq!(page(input), output)
}

#[test]
fn comments_pass_through_unannotated() {
    let input = "<body><!-- 你好 --></body>";
    assert_eq!(page(input), input.to_string())
}

#[test]
fn stray_lt_in_body_text_is_kept() {
    let input = "<body>a < b</body>";
    assert_eq!(page(input), input.to_string())
}

#[test]
fn empty_document_stays_empty() {
    assert_eq!(page(""), "");
}

#[test]
fn href_rewriting_is_idempotent_on_absolute_results() {
    let cfg = wiki_config();
    for u in ["https://a.example/x", "http://a.example/x", "//cdn.example/x", "/a.html", "rel.html", "#frag", "mailto:a@b"] {
        let once = rewrite_href(&cv(u), &cfg);
        let once_s = sv(&once);
        if once_s.starts_with("http://") || once_s.starts_with("https://") {
            let twice = rewrite_href(&once, &cfg);
            assert_eq!(sv(&twice), once_s);
        }
    }
}

#[test]
fn src_rewriting_is_idempotent() {
    let cfg = wiki_config();
    for u in ["https://a.example/x", "//cdn.example/x", "/a.html", "rel.html", ""] {
        let once = rewrite_src(&cv(u), &cfg);
        let twice = rewrite_src(&once, &cfg);
        assert_eq!(sv(&twice), sv(&once));
    }
}

#[test]
fn wiki_prefix_is_replaced_only_at_the_front() {
    let cfg = wiki_config();
    let out = rewrite_href(&cv("/wiki/a/wiki/b"), &cfg);
    assert_eq!(sv(&out), "/zh-tw/a/wiki/b");
}

#[test]
fn srcset_value_alone_is_classified_like_src() {
    let cfg = wiki_config();
    let out = rewrite_srcset(&cv("x.png 1x,/y.png 2x"), &cfg);
    assert_eq!(sv(&out), "x.png 1x, https://zh.wikipedia.org/y.png 2x");
}
