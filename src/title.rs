//! Title normalization: bidirectional-text controls removed, runs of
//! whitespace and underscores turned into one underscore, underscores
//! trimmed at both ends, and the first character upper-cased the way
//! MediaWiki does.

use vstd::prelude::*;

use regex::Regex;

use crate::util::concat;

verus! {

#[verifier::external_type_specification]
#[verifier::external_body]
pub struct ExRegex(Regex);

/// Relies on `regex::Regex::new`: compiles the pattern, or fails on an
/// invalid one.
#[verifier::external_body]
fn compile(pattern: &str) -> (r: Option<Regex>) {
    Regex::new(pattern).ok()
}

/// One step of the cleanup: a compiled pattern and what replaces its
/// matches. Steps are built only by `TitleNormalizer::new`, each with the
/// pattern and replacement of its number.
struct Step {
    id: u8,
    re: Regex,
    rep: &'static str,
}

/// What cleanup step `id` makes of a text.
pub uninterp spec fn cleanup_step(id: u8, s: Seq<char>) -> Seq<char>;

/// Relies on `regex::Regex::replace_all`: every non-overlapping match of the
/// step's pattern replaced by the step's replacement; the result depends on
/// the step and the text alone.
#[verifier::external_body]
fn apply_step(step: &Step, text: &str) -> (r: String)
    ensures
        r@ == cleanup_step(step.id, text@),
{
    step.re.replace_all(text, step.rep).into_owned()
}

/// What `char::to_uppercase` yields for a character.
pub uninterp spec fn uppercase_of(c: char) -> Seq<char>;

/// Relies on `char::to_uppercase`: the upper-case form depends on the
/// character alone.
#[verifier::external_body]
fn to_uppercase(c: char) -> (r: String)
    ensures
        r@ == uppercase_of(c),
{
    c.to_uppercase().collect()
}

/// Relies on `char::to_string`: the string of that one character.
#[verifier::external_body]
fn char_string(c: char) -> (r: String)
    ensures
        r@ == seq![c],
{
    c.to_string()
}

/// Relies on `str::chars`: the first character and the rest of the string.
#[verifier::external_body]
fn split_first(s: &str) -> (r: Option<(char, String)>)
    ensures
        r is None <==> s@.len() == 0,
        r is Some ==> r.unwrap().0 == s@[0] && r.unwrap().1@ == s@.drop_first(),
{
    let mut chars = s.chars();
    chars.next().map(|c| (c, chars.as_str().to_string()))
}

/// Greek letters with iota subscript whose MediaWiki upper case is the
/// title-case letter rather than what `char::to_uppercase` gives.
pub open spec fn special_upper(c: char) -> Option<char> {
    match c {
        '\u{1f80}' => Some('\u{1f88}'),
        '\u{1f81}' => Some('\u{1f89}'),
        '\u{1f82}' => Some('\u{1f8a}'),
        '\u{1f83}' => Some('\u{1f8b}'),
        '\u{1f84}' => Some('\u{1f8c}'),
        '\u{1f85}' => Some('\u{1f8d}'),
        '\u{1f86}' => Some('\u{1f8e}'),
        '\u{1f87}' => Some('\u{1f8f}'),
        '\u{1f90}' => Some('\u{1f98}'),
        '\u{1f91}' => Some('\u{1f99}'),
        '\u{1f92}' => Some('\u{1f9a}'),
        '\u{1f93}' => Some('\u{1f9b}'),
        '\u{1f94}' => Some('\u{1f9c}'),
        '\u{1f95}' => Some('\u{1f9d}'),
        '\u{1f96}' => Some('\u{1f9e}'),
        '\u{1f97}' => Some('\u{1f9f}'),
        '\u{1fa0}' => Some('\u{1fa8}'),
        '\u{1fa1}' => Some('\u{1fa9}'),
        '\u{1fa2}' => Some('\u{1faa}'),
        '\u{1fa3}' => Some('\u{1fab}'),
        '\u{1fa4}' => Some('\u{1fac}'),
        '\u{1fa5}' => Some('\u{1fad}'),
        '\u{1fa6}' => Some('\u{1fae}'),
        '\u{1fa7}' => Some('\u{1faf}'),
        '\u{1fb3}' => Some('\u{1fbc}'),
        '\u{1fc3}' => Some('\u{1fcc}'),
        '\u{1ff3}' => Some('\u{1ffc}'),
        _ => None,
    }
}

/// Characters that MediaWiki leaves as they are at the start of a title.
pub open spec fn keeps_case(c: char) -> bool {
    match c {
        '\u{df}' | '\u{149}' | '\u{1f0}' | '\u{282}' | '\u{345}' | '\u{390}'
        | '\u{3b0}' | '\u{587}' | '\u{10d0}' | '\u{10d1}' | '\u{10d2}' | '\u{10d3}'
        | '\u{10d4}' | '\u{10d5}' | '\u{10d6}' | '\u{10d7}' | '\u{10d8}' | '\u{10d9}'
        | '\u{10da}' | '\u{10db}' | '\u{10dc}' | '\u{10dd}' | '\u{10de}' | '\u{10df}'
        | '\u{10e0}' | '\u{10e1}' | '\u{10e2}' | '\u{10e3}' | '\u{10e4}' | '\u{10e5}'
        | '\u{10e6}' | '\u{10e7}' | '\u{10e8}' | '\u{10e9}' | '\u{10ea}' | '\u{10eb}'
        | '\u{10ec}' | '\u{10ed}' | '\u{10ee}' | '\u{10ef}' | '\u{10f0}' | '\u{10f1}'
        | '\u{10f2}' | '\u{10f3}' | '\u{10f4}' | '\u{10f5}' | '\u{10f6}' | '\u{10f7}'
        | '\u{10f8}' | '\u{10f9}' | '\u{10fa}' | '\u{10fd}' | '\u{10fe}' | '\u{10ff}'
        | '\u{1d8e}' | '\u{1e96}' | '\u{1e97}' | '\u{1e98}' | '\u{1e99}' | '\u{1e9a}'
        | '\u{1f50}' | '\u{1f52}' | '\u{1f54}' | '\u{1f56}' | '\u{1f88}' | '\u{1f89}'
        | '\u{1f8a}' | '\u{1f8b}' | '\u{1f8c}' | '\u{1f8d}' | '\u{1f8e}' | '\u{1f8f}'
        | '\u{1f98}' | '\u{1f99}' | '\u{1f9a}' | '\u{1f9b}' | '\u{1f9c}' | '\u{1f9d}'
        | '\u{1f9e}' | '\u{1f9f}' | '\u{1fa8}' | '\u{1fa9}' | '\u{1faa}' | '\u{1fab}'
        | '\u{1fac}' | '\u{1fad}' | '\u{1fae}' | '\u{1faf}' | '\u{1fb2}' | '\u{1fb4}'
        | '\u{1fb6}' | '\u{1fb7}' | '\u{1fbc}' | '\u{1fc2}' | '\u{1fc4}' | '\u{1fc6}'
        | '\u{1fc7}' | '\u{1fcc}' | '\u{1fd2}' | '\u{1fd3}' | '\u{1fd6}' | '\u{1fd7}'
        | '\u{1fe2}' | '\u{1fe3}' | '\u{1fe4}' | '\u{1fe6}' | '\u{1fe7}' | '\u{1ff2}'
        | '\u{1ff4}' | '\u{1ff6}' | '\u{1ff7}' | '\u{1ffc}' | '\u{2170}' | '\u{2171}'
        | '\u{2172}' | '\u{2173}' | '\u{2174}' | '\u{2175}' | '\u{2176}' | '\u{2177}'
        | '\u{2178}' | '\u{2179}' | '\u{217a}' | '\u{217b}' | '\u{217c}' | '\u{217d}'
        | '\u{217e}' | '\u{217f}' | '\u{24d0}' | '\u{24d1}' | '\u{24d2}' | '\u{24d3}'
        | '\u{24d4}' | '\u{24d5}' | '\u{24d6}' | '\u{24d7}' | '\u{24d8}' | '\u{24d9}'
        | '\u{24da}' | '\u{24db}' | '\u{24dc}' | '\u{24dd}' | '\u{24de}' | '\u{24df}'
        | '\u{24e0}' | '\u{24e1}' | '\u{24e2}' | '\u{24e3}' | '\u{24e4}' | '\u{24e5}'
        | '\u{24e6}' | '\u{24e7}' | '\u{24e8}' | '\u{24e9}' | '\u{a794}' | '\u{a7b9}'
        | '\u{a7bb}' | '\u{a7bd}' | '\u{a7bf}' | '\u{a7c3}' | '\u{fb00}' | '\u{fb01}'
        | '\u{fb02}' | '\u{fb03}' | '\u{fb04}' | '\u{fb05}' | '\u{fb06}' | '\u{fb13}'
        | '\u{fb14}' | '\u{fb15}' | '\u{fb16}' | '\u{fb17}' | '\u{16e60}' | '\u{16e61}'
        | '\u{16e62}' | '\u{16e63}' | '\u{16e64}' | '\u{16e65}' | '\u{16e66}' | '\u{16e67}'
        | '\u{16e68}' | '\u{16e69}' | '\u{16e6a}' | '\u{16e6b}' | '\u{16e6c}' | '\u{16e6d}'
        | '\u{16e6e}' | '\u{16e6f}' | '\u{16e70}' | '\u{16e71}' | '\u{16e72}' | '\u{16e73}'
        | '\u{16e74}' | '\u{16e75}' | '\u{16e76}' | '\u{16e77}' | '\u{16e78}' | '\u{16e79}'
        | '\u{16e7a}' | '\u{16e7b}' | '\u{16e7c}' | '\u{16e7d}' | '\u{16e7e}' | '\u{16e7f}' => true,
        _ => false,
    }
}

/// MediaWiki's upper case of the first character of a title.
pub open spec fn php_upper(c: char) -> Seq<char> {
    match special_upper(c) {
        Some(u) => seq![u],
        None => if keeps_case(c) {
            seq![c]
        } else {
            uppercase_of(c)
        },
    }
}

/// The title with its first character upper-cased by `php_upper`.
pub open spec fn capitalized(t: Seq<char>) -> Seq<char> {
    if t.len() == 0 {
        t
    } else {
        php_upper(t[0]) + t.drop_first()
    }
}

/// MediaWiki's upper case of one character.
pub fn php_char_to_upper(c: char) -> (r: String)
    ensures
        r@ == php_upper(c),
{
    match c {
        '\u{1f80}' => char_string('\u{1f88}'),
        '\u{1f81}' => char_string('\u{1f89}'),
        '\u{1f82}' => char_string('\u{1f8a}'),
        '\u{1f83}' => char_string('\u{1f8b}'),
        '\u{1f84}' => char_string('\u{1f8c}'),
        '\u{1f85}' => char_string('\u{1f8d}'),
        '\u{1f86}' => char_string('\u{1f8e}'),
        '\u{1f87}' => char_string('\u{1f8f}'),
        '\u{1f90}' => char_string('\u{1f98}'),
        '\u{1f91}' => char_string('\u{1f99}'),
        '\u{1f92}' => char_string('\u{1f9a}'),
        '\u{1f93}' => char_string('\u{1f9b}'),
        '\u{1f94}' => char_string('\u{1f9c}'),
        '\u{1f95}' => char_string('\u{1f9d}'),
        '\u{1f96}' => char_string('\u{1f9e}'),
        '\u{1f97}' => char_string('\u{1f9f}'),
        '\u{1fa0}' => char_string('\u{1fa8}'),
        '\u{1fa1}' => char_string('\u{1fa9}'),
        '\u{1fa2}' => char_string('\u{1faa}'),
        '\u{1fa3}' => char_string('\u{1fab}'),
        '\u{1fa4}' => char_string('\u{1fac}'),
        '\u{1fa5}' => char_string('\u{1fad}'),
        '\u{1fa6}' => char_string('\u{1fae}'),
        '\u{1fa7}' => char_string('\u{1faf}'),
        '\u{1fb3}' => char_string('\u{1fbc}'),
        '\u{1fc3}' => char_string('\u{1fcc}'),
        '\u{1ff3}' => char_string('\u{1ffc}'),
        '\u{df}' | '\u{149}' | '\u{1f0}' | '\u{282}' | '\u{345}' | '\u{390}'
        | '\u{3b0}' | '\u{587}' | '\u{10d0}' | '\u{10d1}' | '\u{10d2}' | '\u{10d3}'
        | '\u{10d4}' | '\u{10d5}' | '\u{10d6}' | '\u{10d7}' | '\u{10d8}' | '\u{10d9}'
        | '\u{10da}' | '\u{10db}' | '\u{10dc}' | '\u{10dd}' | '\u{10de}' | '\u{10df}'
        | '\u{10e0}' | '\u{10e1}' | '\u{10e2}' | '\u{10e3}' | '\u{10e4}' | '\u{10e5}'
        | '\u{10e6}' | '\u{10e7}' | '\u{10e8}' | '\u{10e9}' | '\u{10ea}' | '\u{10eb}'
        | '\u{10ec}' | '\u{10ed}' | '\u{10ee}' | '\u{10ef}' | '\u{10f0}' | '\u{10f1}'
        | '\u{10f2}' | '\u{10f3}' | '\u{10f4}' | '\u{10f5}' | '\u{10f6}' | '\u{10f7}'
        | '\u{10f8}' | '\u{10f9}' | '\u{10fa}' | '\u{10fd}' | '\u{10fe}' | '\u{10ff}'
        | '\u{1d8e}' | '\u{1e96}' | '\u{1e97}' | '\u{1e98}' | '\u{1e99}' | '\u{1e9a}'
        | '\u{1f50}' | '\u{1f52}' | '\u{1f54}' | '\u{1f56}' | '\u{1f88}' | '\u{1f89}'
        | '\u{1f8a}' | '\u{1f8b}' | '\u{1f8c}' | '\u{1f8d}' | '\u{1f8e}' | '\u{1f8f}'
        | '\u{1f98}' | '\u{1f99}' | '\u{1f9a}' | '\u{1f9b}' | '\u{1f9c}' | '\u{1f9d}'
        | '\u{1f9e}' | '\u{1f9f}' | '\u{1fa8}' | '\u{1fa9}' | '\u{1faa}' | '\u{1fab}'
        | '\u{1fac}' | '\u{1fad}' | '\u{1fae}' | '\u{1faf}' | '\u{1fb2}' | '\u{1fb4}'
        | '\u{1fb6}' | '\u{1fb7}' | '\u{1fbc}' | '\u{1fc2}' | '\u{1fc4}' | '\u{1fc6}'
        | '\u{1fc7}' | '\u{1fcc}' | '\u{1fd2}' | '\u{1fd3}' | '\u{1fd6}' | '\u{1fd7}'
        | '\u{1fe2}' | '\u{1fe3}' | '\u{1fe4}' | '\u{1fe6}' | '\u{1fe7}' | '\u{1ff2}'
        | '\u{1ff4}' | '\u{1ff6}' | '\u{1ff7}' | '\u{1ffc}' | '\u{2170}' | '\u{2171}'
        | '\u{2172}' | '\u{2173}' | '\u{2174}' | '\u{2175}' | '\u{2176}' | '\u{2177}'
        | '\u{2178}' | '\u{2179}' | '\u{217a}' | '\u{217b}' | '\u{217c}' | '\u{217d}'
        | '\u{217e}' | '\u{217f}' | '\u{24d0}' | '\u{24d1}' | '\u{24d2}' | '\u{24d3}'
        | '\u{24d4}' | '\u{24d5}' | '\u{24d6}' | '\u{24d7}' | '\u{24d8}' | '\u{24d9}'
        | '\u{24da}' | '\u{24db}' | '\u{24dc}' | '\u{24dd}' | '\u{24de}' | '\u{24df}'
        | '\u{24e0}' | '\u{24e1}' | '\u{24e2}' | '\u{24e3}' | '\u{24e4}' | '\u{24e5}'
        | '\u{24e6}' | '\u{24e7}' | '\u{24e8}' | '\u{24e9}' | '\u{a794}' | '\u{a7b9}'
        | '\u{a7bb}' | '\u{a7bd}' | '\u{a7bf}' | '\u{a7c3}' | '\u{fb00}' | '\u{fb01}'
        | '\u{fb02}' | '\u{fb03}' | '\u{fb04}' | '\u{fb05}' | '\u{fb06}' | '\u{fb13}'
        | '\u{fb14}' | '\u{fb15}' | '\u{fb16}' | '\u{fb17}' | '\u{16e60}' | '\u{16e61}'
        | '\u{16e62}' | '\u{16e63}' | '\u{16e64}' | '\u{16e65}' | '\u{16e66}' | '\u{16e67}'
        | '\u{16e68}' | '\u{16e69}' | '\u{16e6a}' | '\u{16e6b}' | '\u{16e6c}' | '\u{16e6d}'
        | '\u{16e6e}' | '\u{16e6f}' | '\u{16e70}' | '\u{16e71}' | '\u{16e72}' | '\u{16e73}'
        | '\u{16e74}' | '\u{16e75}' | '\u{16e76}' | '\u{16e77}' | '\u{16e78}' | '\u{16e79}'
        | '\u{16e7a}' | '\u{16e7b}' | '\u{16e7c}' | '\u{16e7d}' | '\u{16e7e}' | '\u{16e7f}' => char_string(c),
        _ => to_uppercase(c),
    }
}

/// Upper-cases the first character of `title`.
pub fn capitalize_first(title: &str) -> (r: String)
    ensures
        r@ == capitalized(title@),
{
    match split_first(title) {
        None => String::new(),
        Some((first, rest)) => {
            let head = php_char_to_upper(first);
            concat(head.as_str(), rest.as_str())
        },
    }
}

/// The regular expressions of the normalization steps.
/// The cleanup of a title: bidirectional-text controls removed, runs of
/// whitespace and underscores turned into one underscore, underscores
/// trimmed at the start, then at the end.
pub open spec fn cleaned_of(t: Seq<char>) -> Seq<char> {
    cleanup_step(3, cleanup_step(2, cleanup_step(1, cleanup_step(0, t))))
}

/// The normalized form of a title.
pub open spec fn normalized_of(t: Seq<char>) -> Seq<char> {
    capitalized(cleaned_of(t))
}

/// The compiled cleanup steps, in order.
pub struct TitleNormalizer {
    strip_bidi: Step,
    clean_up_whitespace: Step,
    trim_underscore_start: Step,
    trim_underscore_end: Step,
}

impl TitleNormalizer {
    /// Each step sits at its place.
    pub closed spec fn wf(&self) -> bool {
        &&& self.strip_bidi.id == 0
        &&& self.clean_up_whitespace.id == 1
        &&& self.trim_underscore_start.id == 2
        &&& self.trim_underscore_end.id == 3
    }

    /// Compiles the patterns; `None` if one fails to compile.
    pub fn new() -> (r: Option<TitleNormalizer>)
        ensures
            r is Some ==> r.unwrap().wf(),
    {
        let strip_bidi = Step { id: 0, re: compile("[\u{200E}\u{200F}\u{202A}-\u{202E}]")?, rep: "" };
        let clean_up_whitespace = Step {
            id: 1,
            re: compile(
                "[ _\u{00A0}\u{1680}\u{180E}\u{2000}-\u{200A}\u{2028}\u{2029}\u{202F}\u{205F}\u{3000}]+",
            )?,
            rep: "_",
        };
        let trim_underscore_start = Step { id: 2, re: compile("^_+")?, rep: "" };
        let trim_underscore_end = Step { id: 3, re: compile("_+$")?, rep: "" };
        Some(TitleNormalizer { strip_bidi, clean_up_whitespace, trim_underscore_start, trim_underscore_end })
    }

    /// The normalized form of a title: the cleaned-up title with its first
    /// character upper-cased.
    pub fn normalize(&self, title: &str) -> (r: String)
        requires
            self.wf(),
        ensures
            r@ == normalized_of(title@),
    {
        let t = apply_step(&self.strip_bidi, title);
        let t = apply_step(&self.clean_up_whitespace, t.as_str());
        let t = apply_step(&self.trim_underscore_start, t.as_str());
        let t = apply_step(&self.trim_underscore_end, t.as_str());
        capitalize_first(t.as_str())
    }
}

} // verus!
