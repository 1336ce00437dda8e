//! Mirrors a Chinese-language wiki page: rewrites hyperlink and resource
//! URLs to stay within the mirrored domain and annotates Han text in the
//! document body with bopomofo ruby markup, driven by a phonetic dictionary
//! and word segmentation.

pub mod annotate;
pub mod chars;
pub mod dict;
pub mod mobile;
pub mod preserve;
pub mod rewrite;
pub mod segment;
pub mod strutil;
pub mod url;

pub use annotate::insert_bopomofo;
pub use annotate::synthesize_char_and_bopo;
pub use annotate::transform_segment;
pub use dict::Dictionary;
pub use dict::DictionaryLoadError;
pub use mobile::is_mobile;
pub use rewrite::transform_page;
pub use segment::Segmenter;
pub use url::RewriteConfig;
