//! HTML-aware tokenisation of one post's content.
//!
//! The content is scanned from the start with one pattern tried repeatedly,
//! in priority order: a tag (closing, opening, or self-closing, with any
//! leading whitespace), an HTML entity, a word with any leading whitespace,
//! or a single punctuation character with any leading whitespace. Characters
//! that begin no match are skipped. Character classes are ASCII (plus the
//! typographic apostrophe in words); a word is a run of alphanumerics,
//! underscores and apostrophes; `<` and `>` never count as punctuation.

use vstd::prelude::*;
use crate::error::Error;
use crate::intern::{Interner, interner_strings, INTERNER_CAPACITY};
use crate::markov::TokenType;
use crate::table::{TransitionTable, pair_total};

verus! {

/// The character classes the scanner runs over.
#[derive(Debug, Clone, Copy, PartialEq, Eq, Structural)]
pub enum CharClass {
    /// ASCII whitespace.
    Space,
    /// Word characters: ASCII alphanumerics, `_`, and the typographic
    /// apostrophe.
    Word,
    /// Entity-name characters: ASCII alphanumerics, `_`, and `#`.
    Entity,
    /// Tag-name and attribute-name characters: ASCII alphanumerics, `_`, `-`.
    TagName,
    /// Anything but a double quote: the inside of an attribute value.
    NonQuote,
}

/// Whether `c` belongs to the class `cl`.
pub open spec fn in_class(cl: CharClass, c: char) -> bool {
    let u = c as u32;
    let alnum = (48 <= u <= 57) || (65 <= u <= 90) || (97 <= u <= 122);
    match cl {
        CharClass::Space => u == 32 || u == 9 || u == 10 || u == 13 || u == 11 || u == 12,
        CharClass::Word => alnum || u == 95 || u == 0x2019,
        CharClass::Entity => alnum || u == 95 || u == 35,
        CharClass::TagName => alnum || u == 95 || u == 45,
        CharClass::NonQuote => u != 34,
    }
}

/// A single ASCII punctuation character, other than `<` and `>`.
pub open spec fn is_punct_char(c: char) -> bool {
    let u = c as u32;
    (33 <= u <= 47) || (58 <= u <= 64 && u != 60 && u != 62) || (91 <= u <= 96) || (123 <= u
        <= 126)
}

/// The first index at or after `i` whose character is not in `cl` (the
/// length of `s` if the run reaches the end).
pub open spec fn run_end(s: Seq<char>, cl: CharClass, i: int) -> int
    decreases s.len() - i,
    when 0 <= i <= s.len()
{
    if i < s.len() && in_class(cl, s[i]) {
        run_end(s, cl, i + 1)
    } else {
        i
    }
}

/// Bounds and contents of a class run.
pub proof fn lemma_run_end(s: Seq<char>, cl: CharClass, i: int)
    requires
        0 <= i <= s.len(),
    ensures
        i <= run_end(s, cl, i) <= s.len(),
        forall|j: int| i <= j < run_end(s, cl, i) ==> in_class(cl, s[j]),
        run_end(s, cl, i) < s.len() ==> !in_class(cl, s[run_end(s, cl, i)]),
    decreases s.len() - i,
{
    if i < s.len() && in_class(cl, s[i]) {
        lemma_run_end(s, cl, i + 1);
    }
}

/// The end of an optional `="..."` attribute value starting at `i`: past the
/// closing quote if the full form is present, `i` itself otherwise.
pub open spec fn attr_value_end(s: Seq<char>, i: int) -> int {
    if i + 1 < s.len() && s[i] == '=' && s[i + 1] == '"' {
        let q = run_end(s, CharClass::NonQuote, i + 2);
        if q < s.len() {
            q + 1
        } else {
            i
        }
    } else {
        i
    }
}

/// The end of the raw attribute region starting at `i`: zero or more items,
/// each one or more whitespace characters, an attribute name, and an
/// optional quoted value.
pub open spec fn attrs_end(s: Seq<char>, i: int) -> int
    decreases s.len() - i,
    when 0 <= i <= s.len()
    via attrs_end_dec
{
    let w = run_end(s, CharClass::Space, i);
    if w == i || w == s.len() {
        i
    } else {
        let n = run_end(s, CharClass::TagName, w);
        if n == w {
            i
        } else {
            attrs_end(s, attr_value_end(s, n))
        }
    }
}

#[via_fn]
proof fn attrs_end_dec(s: Seq<char>, i: int) {
    lemma_run_end(s, CharClass::Space, i);
    let w = run_end(s, CharClass::Space, i);
    if i <= w <= s.len() {
        lemma_run_end(s, CharClass::TagName, w);
        let n = run_end(s, CharClass::TagName, w);
        if 0 <= n + 2 <= s.len() {
            lemma_run_end(s, CharClass::NonQuote, n + 2);
        }
    }
}

/// Bounds of the attribute region.
pub proof fn lemma_attrs_end(s: Seq<char>, i: int)
    requires
        0 <= i <= s.len(),
    ensures
        i <= attrs_end(s, i) <= s.len(),
    decreases s.len() - i,
{
    lemma_run_end(s, CharClass::Space, i);
    let w = run_end(s, CharClass::Space, i);
    if w != i && w != s.len() {
        lemma_run_end(s, CharClass::TagName, w);
        let n = run_end(s, CharClass::TagName, w);
        if n != w {
            let v = attr_value_end(s, n);
            if n + 1 < s.len() && s[n] == '=' && s[n + 1] == '"' {
                lemma_run_end(s, CharClass::NonQuote, n + 2);
            }
            lemma_attrs_end(s, v);
        }
    }
}

/// One scanned token, before interning: literal text, an open tag, or a
/// close marker.
pub enum SpecToken {
    /// Literal text (a word or punctuation with its leading whitespace, or a
    /// decoded entity).
    Text(Seq<char>),
    /// An open tag: its leading whitespace, name, and raw attribute text.
    Tag { whitespace: Option<Seq<char>>, tag: Seq<char>, attrs: Seq<char> },
    /// A closing or self-closing marker.
    End,
}

/// What `html_escape::decode_html_entities` returns for the given text: a
/// pure function of the characters alone.
pub uninterp spec fn decoded_entities(s: Seq<char>) -> Seq<char>;

/// Relies on `html_escape::decode_html_entities`: exact named and numeric
/// character references ending with `;` are decoded; the result depends on
/// the text alone.
#[verifier::external_body]
fn decode_entities(s: &str) -> (r: String)
    ensures
        r@ == decoded_entities(s@),
{
    html_escape::decode_html_entities(s).into_owned()
}

/// A tag match at `i`: any whitespace, `<`, an optional `/`, a nonempty
/// name, the attribute region, an optional `/`, and `>`. A closing tag
/// yields `End`; an opening tag yields `Tag`, followed by `End` when
/// self-closing. Returns the tokens and the position after `>`.
pub open spec fn tag_match(s: Seq<char>, i: int) -> Option<(Seq<SpecToken>, int)> {
    let w = run_end(s, CharClass::Space, i);
    if w < s.len() && s[w] == '<' {
        let closing = w + 1 < s.len() && s[w + 1] == '/';
        let b = if closing {
            w + 2
        } else {
            w + 1
        };
        let n = run_end(s, CharClass::TagName, b);
        if n == b {
            None
        } else {
            let a = attrs_end(s, n);
            let c = if a < s.len() && s[a] == '/' {
                a + 1
            } else {
                a
            };
            if c < s.len() && s[c] == '>' {
                if closing {
                    Some((seq![SpecToken::End], c + 1))
                } else {
                    let tag_tok = SpecToken::Tag {
                        whitespace: if w > i {
                            Some(s.subrange(i, w))
                        } else {
                            None
                        },
                        tag: s.subrange(b, n),
                        attrs: s.subrange(n, a),
                    };
                    if c == a + 1 {
                        Some((seq![tag_tok, SpecToken::End], c + 1))
                    } else {
                        Some((seq![tag_tok], c + 1))
                    }
                }
            } else {
                None
            }
        }
    } else {
        None
    }
}

/// An entity match at `i`: `&`, a nonempty run of entity characters, `;`.
/// Returns the raw entity text (decoded later) and the position after `;`.
pub open spec fn entity_match(s: Seq<char>, i: int) -> Option<(Seq<char>, int)> {
    if i < s.len() && s[i] == '&' {
        let e = run_end(s, CharClass::Entity, i + 1);
        if e > i + 1 && e < s.len() && s[e] == ';' {
            Some((s.subrange(i, e + 1), e + 1))
        } else {
            None
        }
    } else {
        None
    }
}

/// A word match at `i`: any whitespace, then a nonempty run of word
/// characters. The leading whitespace is part of the text.
pub open spec fn word_match(s: Seq<char>, i: int) -> Option<(Seq<char>, int)> {
    let w = run_end(s, CharClass::Space, i);
    if w <= s.len() {
        let e = run_end(s, CharClass::Word, w);
        if e > w {
            Some((s.subrange(i, e), e))
        } else {
            None
        }
    } else {
        None
    }
}

/// A punctuation match at `i`: any whitespace, then one punctuation
/// character other than `<` and `>`. The whitespace is part of the text.
pub open spec fn punct_match(s: Seq<char>, i: int) -> Option<(Seq<char>, int)> {
    let w = run_end(s, CharClass::Space, i);
    if w < s.len() && is_punct_char(s[w]) {
        Some((s.subrange(i, w + 1), w + 1))
    } else {
        None
    }
}

/// The token stream of `s` from position `i`: at each position a tag is
/// tried first, then an entity, then a word, then punctuation; a character
/// that begins no match is skipped.
pub open spec fn spec_scan(s: Seq<char>, i: int) -> Seq<SpecToken>
    decreases s.len() - i,
    when 0 <= i <= s.len()
    via spec_scan_dec
{
    if i >= s.len() {
        Seq::empty()
    } else if tag_match(s, i) is Some {
        let (toks, e) = tag_match(s, i)->Some_0;
        toks + spec_scan(s, e)
    } else if entity_match(s, i) is Some {
        let (t, e) = entity_match(s, i)->Some_0;
        seq![SpecToken::Text(decoded_entities(t))] + spec_scan(s, e)
    } else if word_match(s, i) is Some {
        let (t, e) = word_match(s, i)->Some_0;
        seq![SpecToken::Text(t)] + spec_scan(s, e)
    } else if punct_match(s, i) is Some {
        let (t, e) = punct_match(s, i)->Some_0;
        seq![SpecToken::Text(t)] + spec_scan(s, e)
    } else {
        spec_scan(s, i + 1)
    }
}

#[via_fn]
proof fn spec_scan_dec(s: Seq<char>, i: int) {
    if 0 <= i < s.len() {
        lemma_match_ends(s, i);
    }
}

/// Every successful match ends strictly past its start and within the text.
pub proof fn lemma_match_ends(s: Seq<char>, i: int)
    requires
        0 <= i < s.len(),
    ensures
        tag_match(s, i) is Some ==> i < tag_match(s, i)->Some_0.1 <= s.len(),
        entity_match(s, i) is Some ==> i < entity_match(s, i)->Some_0.1 <= s.len(),
        word_match(s, i) is Some ==> i < word_match(s, i)->Some_0.1 <= s.len(),
        punct_match(s, i) is Some ==> i < punct_match(s, i)->Some_0.1 <= s.len(),
{
    lemma_run_end(s, CharClass::Space, i);
    let w = run_end(s, CharClass::Space, i);
    if w < s.len() && s[w] == '<' {
        let b = if w + 1 < s.len() && s[w + 1] == '/' {
            w + 2
        } else {
            w + 1
        };
        if b <= s.len() {
            lemma_run_end(s, CharClass::TagName, b);
            let n = run_end(s, CharClass::TagName, b);
            if n != b {
                lemma_attrs_end(s, n);
            }
        }
    }
    if s[i] == '&' {
        lemma_run_end(s, CharClass::Entity, i + 1);
    }
    if w <= s.len() {
        lemma_run_end(s, CharClass::Word, w);
    }
}

/// One scanned token as executable data, before interning.
pub enum RawToken {
    /// Literal text.
    Text(String),
    /// An open tag: leading whitespace, name, raw attribute text.
    Tag { whitespace: Option<String>, tag: String, attrs: String },
    /// A closing or self-closing marker.
    End,
}

impl View for RawToken {
    type V = SpecToken;

    open spec fn view(&self) -> SpecToken {
        match self {
            RawToken::Text(s) => SpecToken::Text(s@),
            RawToken::Tag { whitespace, tag, attrs } => SpecToken::Tag {
                whitespace: match whitespace {
                    Some(w) => Some(w@),
                    None => None,
                },
                tag: tag@,
                attrs: attrs@,
            },
            RawToken::End => SpecToken::End,
        }
    }
}

/// The scanned tokens of `ts`, seen abstractly.
pub open spec fn views_of(ts: Seq<RawToken>) -> Seq<SpecToken> {
    Seq::new(ts.len(), |k: int| ts[k]@)
}

/// Whether `c` belongs to the class `cl`.
fn in_class_exec(cl: CharClass, c: char) -> (r: bool)
    ensures
        r == in_class(cl, c),
{
    let u = c as u32;
    let alnum = (48 <= u && u <= 57) || (65 <= u && u <= 90) || (97 <= u && u <= 122);
    match cl {
        CharClass::Space => u == 32 || u == 9 || u == 10 || u == 13 || u == 11 || u == 12,
        CharClass::Word => alnum || u == 95 || u == 0x2019,
        CharClass::Entity => alnum || u == 95 || u == 35,
        CharClass::TagName => alnum || u == 95 || u == 45,
        CharClass::NonQuote => u != 34,
    }
}

/// Whether `c` is punctuation the scanner accepts.
fn is_punct_exec(c: char) -> (r: bool)
    ensures
        r == is_punct_char(c),
{
    let u = c as u32;
    (33 <= u && u <= 47) || (58 <= u && u <= 64 && u != 60 && u != 62) || (91 <= u && u <= 96)
        || (123 <= u && u <= 126)
}

/// The end of the class run beginning at `i`.
fn class_run_end(s: &str, n: usize, cl: CharClass, i: usize) -> (e: usize)
    requires
        n == s@.len(),
        i <= n,
    ensures
        e as int == run_end(s@, cl, i as int),
        i <= e <= n,
{
    let mut j = i;
    loop
        invariant
            n == s@.len(),
            i <= j <= n,
            run_end(s@, cl, i as int) == run_end(s@, cl, j as int),
        decreases n - j,
    {
        if j < n && in_class_exec(cl, s.get_char(j)) {
            j = j + 1;
        } else {
            proof {
                lemma_run_end(s@, cl, j as int);
            }
            return j;
        }
    }
}

/// The end of an optional `="..."` attribute value beginning at `i`.
fn attr_value_end_exec(s: &str, n: usize, i: usize) -> (e: usize)
    requires
        n == s@.len(),
        i <= n,
    ensures
        e as int == attr_value_end(s@, i as int),
        i <= e <= n,
{
    if n - i > 1 && s.get_char(i) == '=' && s.get_char(i + 1) == '"' {
        let q = class_run_end(s, n, CharClass::NonQuote, i + 2);
        if q < n {
            q + 1
        } else {
            i
        }
    } else {
        i
    }
}

/// The end of the raw attribute region beginning at `i`.
fn attrs_end_exec(s: &str, n: usize, i: usize) -> (e: usize)
    requires
        n == s@.len(),
        i <= n,
    ensures
        e as int == attrs_end(s@, i as int),
        i <= e <= n,
    decreases n - i,
{
    let w = class_run_end(s, n, CharClass::Space, i);
    if w == i || w == n {
        i
    } else {
        let m = class_run_end(s, n, CharClass::TagName, w);
        if m == w {
            i
        } else {
            let v = attr_value_end_exec(s, n, m);
            attrs_end_exec(s, n, v)
        }
    }
}

/// Try a tag match at `i`: the emitted tokens and the position after `>`.
fn try_tag(s: &str, n: usize, i: usize) -> (r: Option<(Vec<RawToken>, usize)>)
    requires
        n == s@.len(),
        i < n,
    ensures
        match r {
            None => tag_match(s@, i as int) is None,
            Some(v) => {
                &&& tag_match(s@, i as int) is Some
                &&& views_of(v.0@) == tag_match(s@, i as int)->Some_0.0
                &&& v.1 as int == tag_match(s@, i as int)->Some_0.1
                &&& i < v.1 <= n
            },
        },
{
    let w = class_run_end(s, n, CharClass::Space, i);
    if w < n && s.get_char(w) == '<' {
        let closing = n - w > 1 && s.get_char(w + 1) == '/';
        let b = if closing {
            w + 2
        } else {
            w + 1
        };
        let m = class_run_end(s, n, CharClass::TagName, b);
        if m == b {
            None
        } else {
            let a = attrs_end_exec(s, n, m);
            let c = if a < n && s.get_char(a) == '/' {
                a + 1
            } else {
                a
            };
            if c < n && s.get_char(c) == '>' {
                let mut out: Vec<RawToken> = Vec::new();
                if closing {
                    out.push(RawToken::End);
                    proof {
                        assert(views_of(out@) =~= seq![SpecToken::End]);
                    }
                    Some((out, c + 1))
                } else {
                    let whitespace = if w > i {
                        Some(s.substring_char(i, w).to_owned())
                    } else {
                        None
                    };
                    let tag = s.substring_char(b, m).to_owned();
                    let attrs = s.substring_char(m, a).to_owned();
                    out.push(RawToken::Tag { whitespace, tag, attrs });
                    let auto = c == a + 1;
                    if auto {
                        out.push(RawToken::End);
                    }
                    proof {
                        let spec_toks = tag_match(s@, i as int)->Some_0.0;
                        assert(views_of(out@) =~= spec_toks);
                    }
                    Some((out, c + 1))
                }
            } else {
                None
            }
        }
    } else {
        None
    }
}

/// Try an entity match at `i`: the decoded text and the position after `;`.
fn try_entity(s: &str, n: usize, i: usize) -> (r: Option<(RawToken, usize)>)
    requires
        n == s@.len(),
        i < n,
    ensures
        match r {
            None => entity_match(s@, i as int) is None,
            Some(v) => {
                &&& entity_match(s@, i as int) is Some
                &&& v.0@ == SpecToken::Text(
                    decoded_entities(entity_match(s@, i as int)->Some_0.0),
                )
                &&& v.1 as int == entity_match(s@, i as int)->Some_0.1
                &&& i < v.1 <= n
            },
        },
{
    if s.get_char(i) == '&' {
        let e = class_run_end(s, n, CharClass::Entity, i + 1);
        if e > i + 1 && e < n && s.get_char(e) == ';' {
            let raw = s.substring_char(i, e + 1);
            let txt = decode_entities(raw);
            Some((RawToken::Text(txt), e + 1))
        } else {
            None
        }
    } else {
        None
    }
}

/// Try a word match at `i`: the text (with leading whitespace) and its end.
fn try_word(s: &str, n: usize, i: usize) -> (r: Option<(RawToken, usize)>)
    requires
        n == s@.len(),
        i < n,
    ensures
        match r {
            None => word_match(s@, i as int) is None,
            Some(v) => {
                &&& word_match(s@, i as int) is Some
                &&& v.0@ == SpecToken::Text(word_match(s@, i as int)->Some_0.0)
                &&& v.1 as int == word_match(s@, i as int)->Some_0.1
                &&& i < v.1 <= n
            },
        },
{
    let w = class_run_end(s, n, CharClass::Space, i);
    let e = class_run_end(s, n, CharClass::Word, w);
    if e > w {
        Some((RawToken::Text(s.substring_char(i, e).to_owned()), e))
    } else {
        None
    }
}

/// Try a punctuation match at `i`: the text (with leading whitespace) and
/// its end.
fn try_punct(s: &str, n: usize, i: usize) -> (r: Option<(RawToken, usize)>)
    requires
        n == s@.len(),
        i < n,
    ensures
        match r {
            None => punct_match(s@, i as int) is None,
            Some(v) => {
                &&& punct_match(s@, i as int) is Some
                &&& v.0@ == SpecToken::Text(punct_match(s@, i as int)->Some_0.0)
                &&& v.1 as int == punct_match(s@, i as int)->Some_0.1
                &&& i < v.1 <= n
            },
        },
{
    let w = class_run_end(s, n, CharClass::Space, i);
    if w < n && is_punct_exec(s.get_char(w)) {
        Some((RawToken::Text(s.substring_char(i, w + 1).to_owned()), w + 1))
    } else {
        None
    }
}

/// Scan one post into its token stream.
pub fn scan(post: &str) -> (toks: Vec<RawToken>)
    ensures
        views_of(toks@) == spec_scan(post@, 0),
{
    let n = post.unicode_len();
    let mut out: Vec<RawToken> = Vec::new();
    let mut i: usize = 0;
    while i < n
        invariant
            n == post@.len(),
            i <= n,
            views_of(out@) + spec_scan(post@, i as int) == spec_scan(post@, 0),
        decreases n - i,
    {
        let ghost pre = out@;
        if let Some((mut v, e)) = try_tag(post, n, i) {
            let ghost vv = v@;
            out.append(&mut v);
            proof {
                assert(views_of(out@) =~= views_of(pre) + views_of(vv));
                assert(views_of(out@) + spec_scan(post@, e as int) =~= views_of(pre) + spec_scan(
                    post@,
                    i as int,
                ));
            }
            i = e;
        } else if let Some((t, e)) = try_entity(post, n, i) {
            out.push(t);
            proof {
                assert(views_of(out@) =~= views_of(pre).push(t@));
                assert(views_of(out@) + spec_scan(post@, e as int) =~= views_of(pre) + spec_scan(
                    post@,
                    i as int,
                ));
            }
            i = e;
        } else if let Some((t, e)) = try_word(post, n, i) {
            out.push(t);
            proof {
                assert(views_of(out@) =~= views_of(pre).push(t@));
                assert(views_of(out@) + spec_scan(post@, e as int) =~= views_of(pre) + spec_scan(
                    post@,
                    i as int,
                ));
            }
            i = e;
        } else if let Some((t, e)) = try_punct(post, n, i) {
            out.push(t);
            proof {
                assert(views_of(out@) =~= views_of(pre).push(t@));
                assert(views_of(out@) + spec_scan(post@, e as int) =~= views_of(pre) + spec_scan(
                    post@,
                    i as int,
                ));
            }
            i = e;
        } else {
            i = i + 1;
        }
    }
    proof {
        assert(spec_scan(post@, n as int) =~= Seq::<SpecToken>::empty());
        assert(views_of(out@) =~= views_of(out@) + spec_scan(post@, n as int));
    }
    out
}


/// Handle `h` is the canonical handle of the string `x` in the interner
/// state `iv`: it resolves to `x` and no earlier handle does.
pub open spec fn handle_names(iv: Seq<Seq<char>>, h: u32, x: Seq<char>) -> bool {
    &&& (h as int) < iv.len()
    &&& iv[h as int] == x
    &&& forall|j: int| 0 <= j < h ==> iv[j] != x
}

/// The interned token `tt` stands for the scanned token `t` under the
/// interner state `iv`.
pub open spec fn token_matches(t: SpecToken, tt: TokenType, iv: Seq<Seq<char>>) -> bool {
    match t {
        SpecToken::End => tt == TokenType::End,
        SpecToken::Text(x) => match tt {
            TokenType::Text(h) => handle_names(iv, h, x),
            _ => false,
        },
        SpecToken::Tag { whitespace, tag, attrs } => match tt {
            TokenType::Tag { whitespace: hw, tag: ht, attrs: ha } => {
                &&& handle_names(iv, ht, tag)
                &&& handle_names(iv, ha, attrs)
                &&& match (whitespace, hw) {
                    (Option::None, Option::None) => true,
                    (Option::Some(ws), Option::Some(h2)) => handle_names(iv, h2, ws),
                    _ => false,
                }
            },
            _ => false,
        },
    }
}

/// Every scanned token corresponds to its interned token.
pub open spec fn tokens_match(ts: Seq<SpecToken>, tts: Seq<TokenType>, iv: Seq<Seq<char>>) -> bool {
    &&& ts.len() == tts.len()
    &&& forall|k: int| 0 <= k < ts.len() ==> token_matches(ts[k], tts[k], iv)
}

/// A token that stands for a scanned token keeps doing so when the interner
/// grows: handles never move.
proof fn lemma_token_matches_extend(t: SpecToken, tt: TokenType, iv1: Seq<Seq<char>>, iv2: Seq<Seq<char>>)
    requires
        token_matches(t, tt, iv1),
        iv1.is_prefix_of(iv2),
    ensures
        token_matches(t, tt, iv2),
{
    assert(forall|j: int| 0 <= j < iv1.len() ==> iv2[j] == iv1[j]);
}

/// A matched token sequence keeps matching when the interner grows.
pub proof fn lemma_tokens_match_extend(ts: Seq<SpecToken>, tts: Seq<TokenType>, iv1: Seq<Seq<char>>, iv2: Seq<Seq<char>>)
    requires
        tokens_match(ts, tts, iv1),
        iv1.is_prefix_of(iv2),
    ensures
        tokens_match(ts, tts, iv2),
{
    assert forall|k: int| 0 <= k < ts.len() implies token_matches(ts[k], tts[k], iv2) by {
        lemma_token_matches_extend(ts[k], tts[k], iv1, iv2);
    }
}

/// How many of the adjacent pairs of the walk that starts at `prev` and then
/// visits `toks` in order are exactly `(s, d)`.
pub open spec fn chain_count(prev: TokenType, toks: Seq<TokenType>, s: TokenType, d: TokenType) -> int
    decreases toks.len(),
{
    if toks.len() == 0 {
        0
    } else {
        (if prev == s && toks[0] == d {
            1int
        } else {
            0int
        }) + chain_count(toks[0], toks.drop_first(), s, d)
    }
}

/// A chain count is never negative.
pub proof fn lemma_chain_count_nonneg(prev: TokenType, toks: Seq<TokenType>, s: TokenType, d: TokenType)
    ensures
        chain_count(prev, toks, s, d) >= 0,
    decreases toks.len(),
{
    if toks.len() > 0 {
        lemma_chain_count_nonneg(toks[0], toks.drop_first(), s, d);
    }
}

/// The pairs contributed by a list of posts' token streams: each stream is
/// walked from `Start` and closed with one final `End`.
pub open spec fn chains_total(tss: Seq<Seq<TokenType>>, s: TokenType, d: TokenType) -> int
    decreases tss.len(),
{
    if tss.len() == 0 {
        0
    } else {
        chains_total(tss.drop_last(), s, d) + chain_count(
            TokenType::Start,
            tss.last().push(TokenType::End),
            s,
            d,
        )
    }
}

/// A chains total is never negative.
pub proof fn lemma_chains_total_nonneg(tss: Seq<Seq<TokenType>>, s: TokenType, d: TokenType)
    ensures
        chains_total(tss, s, d) >= 0,
    decreases tss.len(),
{
    if tss.len() > 0 {
        lemma_chains_total_nonneg(tss.drop_last(), s, d);
        lemma_chain_count_nonneg(TokenType::Start, tss.last().push(TokenType::End), s, d);
    }
}

/// Addition that saturates at the largest count.
pub open spec fn capped_add(a: int, k: int) -> int {
    if a + k <= u64::MAX as int {
        a + k
    } else {
        u64::MAX as int
    }
}

/// Intern one scanned token. On success the result stands for the token
/// under the final interner state, and the interner has only grown; the
/// token is refused only when the interner is full.
fn intern_token(raw: &RawToken, interner: &mut Interner) -> (r: Result<TokenType, Error>)
    ensures
        interner_strings(*old(interner)).is_prefix_of(interner_strings(*final(interner))),
        interner_strings(*final(interner)).len() <= interner_strings(*old(interner)).len() + 3,
        match r {
            Ok(tt) => token_matches(raw@, tt, interner_strings(*final(interner))),
            Err(e) => e == Error::InternerFull && interner_strings(*final(interner)).len()
                >= INTERNER_CAPACITY as int,
        },
{
    match raw {
        RawToken::End => Ok(TokenType::End),
        RawToken::Text(s) => {
            if interner.len() >= INTERNER_CAPACITY {
                return Err(Error::InternerFull);
            }
            let h = interner.get_or_intern(s.as_str());
            Ok(TokenType::Text(h))
        },
        RawToken::Tag { whitespace, tag, attrs } => {
            let ghost iv0 = interner_strings(*interner);
            let hw = match whitespace {
                Some(w) => {
                    if interner.len() >= INTERNER_CAPACITY {
                        return Err(Error::InternerFull);
                    }
                    Some(interner.get_or_intern(w.as_str()))
                },
                None => None,
            };
            let ghost iv1 = interner_strings(*interner);
            if interner.len() >= INTERNER_CAPACITY {
                return Err(Error::InternerFull);
            }
            let ht = interner.get_or_intern(tag.as_str());
            let ghost iv2 = interner_strings(*interner);
            if interner.len() >= INTERNER_CAPACITY {
                return Err(Error::InternerFull);
            }
            let ha = interner.get_or_intern(attrs.as_str());
            let ghost iv3 = interner_strings(*interner);
            proof {
                assert(iv0.is_prefix_of(iv1));
                assert(iv1.is_prefix_of(iv2));
                assert(iv2.is_prefix_of(iv3));
                assert(iv0.is_prefix_of(iv3));
            }
            Ok(TokenType::Tag { whitespace: hw, tag: ht, attrs: ha })
        },
    }
}

/// Tokenise one post and record its transitions.
///
/// The post is scanned into its token stream, every token is interned, and
/// the walk `Start`, the tokens in order, then one final `End` contributes
/// one occurrence per adjacent pair to the table. Returns the interned
/// token stream (without the implicit `Start` and final `End`). The post is
/// refused, with the table unchanged, only when the interner is full.
pub fn tokenise(post: &str, table: &mut TransitionTable, interner: &mut Interner) -> (r: Result<
    Vec<TokenType>,
    Error,
>)
    requires
        old(table).wf(),
    ensures
        final(table).wf(),
        interner_strings(*old(interner)).is_prefix_of(interner_strings(*final(interner))),
        interner_strings(*final(interner)).len() <= interner_strings(*old(interner)).len() + 3
            * spec_scan(post@, 0).len(),
        match r {
            Ok(tts) => {
                &&& tokens_match(spec_scan(post@, 0), tts@, interner_strings(*final(interner)))
                &&& forall|s: TokenType, d: TokenType|
                    pair_total(final(table)@, s, d) == capped_add(
                        pair_total(old(table)@, s, d),
                        chain_count(TokenType::Start, tts@.push(TokenType::End), s, d),
                    )
            },
            Err(e) => e == Error::InternerFull && interner_strings(*final(interner)).len()
                >= INTERNER_CAPACITY as int && final(table)@ == old(table)@,
        },
{
    let raw = scan(post);
    let mut tts: Vec<TokenType> = Vec::new();
    let mut k: usize = 0;
    while k < raw.len()
        invariant
            old(table).wf(),
            table@ == old(table)@,
            k <= raw.len(),
            tts@.len() == k,
            views_of(raw@) == spec_scan(post@, 0),
            interner_strings(*old(interner)).is_prefix_of(interner_strings(*interner)),
            interner_strings(*interner).len() <= interner_strings(*old(interner)).len() + 3 * (
            k as int),
            views_of(raw@).len() == spec_scan(post@, 0).len(),
            tokens_match(
                views_of(raw@).take(k as int),
                tts@,
                interner_strings(*interner),
            ),
        decreases raw.len() - k,
    {
        let ghost iv_before = interner_strings(*interner);
        let ghost matched = views_of(raw@).take(k as int);
        let ghost tts_before = tts@;
        match intern_token(&raw[k], interner) {
            Ok(tt) => {
                tts.push(tt);
                proof {
                    lemma_tokens_match_extend(
                        matched,
                        tts_before,
                        iv_before,
                        interner_strings(*interner),
                    );
                    assert(views_of(raw@).take(k as int + 1) =~= matched.push(raw@[k as int]@));
                    assert forall|j: int| 0 <= j < k + 1 implies token_matches(
                        views_of(raw@).take(k as int + 1)[j],
                        tts@[j],
                        interner_strings(*interner),
                    ) by {
                        if j < k {
                            assert(token_matches(matched[j], tts_before[j], interner_strings(*interner)));
                        }
                    }
                }
                k = k + 1;
            },
            Err(e) => {
                return Err(e);
            },
        }
    }
    proof {
        assert(views_of(raw@).take(raw@.len() as int) =~= views_of(raw@));
    }
    // Record the walk: Start, the tokens in order, then one final End.
    let ghost full = tts@.push(TokenType::End);
    let mut prev = TokenType::Start;
    let mut i: usize = 0;
    proof {
        assert(full.skip(0) =~= full);
    }
    while i < tts.len()
        invariant
            old(table).wf(),
            table.wf(),
            i <= tts@.len(),
            full == tts@.push(TokenType::End),
            prev == if i == 0 {
                TokenType::Start
            } else {
                tts@[i as int - 1]
            },
            forall|s: TokenType, d: TokenType|
                capped_add(
                    pair_total(table@, s, d),
                    chain_count(prev, full.skip(i as int), s, d),
                ) == capped_add(
                    pair_total(old(table)@, s, d),
                    chain_count(TokenType::Start, full, s, d),
                ),
        decreases tts@.len() - i,
    {
        let t = tts[i];
        let ghost pre_table = table@;
        let ghost pre_prev = prev;
        proof {
            crate::table::lemma_wf_total_bounded(table);
        }
        table.increment(prev, t);
        proof {
            assert(full.skip(i as int)[0] == t);
            assert(full.skip(i as int).drop_first() =~= full.skip(i as int + 1));
            assert forall|s: TokenType, d: TokenType|
                capped_add(
                    pair_total(table@, s, d),
                    chain_count(t, full.skip(i as int + 1), s, d),
                ) == capped_add(
                    pair_total(old(table)@, s, d),
                    chain_count(TokenType::Start, full, s, d),
                ) by {
                lemma_chain_count_nonneg(t, full.skip(i as int + 1), s, d);
                lemma_chain_count_nonneg(pre_prev, full.skip(i as int), s, d);
                assert(chain_count(pre_prev, full.skip(i as int), s, d) == (if pre_prev == s && t
                    == d {
                    1int
                } else {
                    0int
                }) + chain_count(t, full.skip(i as int + 1), s, d));
            }
        }
        prev = t;
        i = i + 1;
    }
    let ghost pre_table = table@;
    let ghost pre_prev = prev;
    proof {
        crate::table::lemma_wf_total_bounded(table);
    }
    table.increment(prev, TokenType::End);
    proof {
        assert(full.skip(tts@.len() as int) =~= seq![TokenType::End]);
        assert forall|s: TokenType, d: TokenType|
            pair_total(table@, s, d) == capped_add(
                pair_total(old(table)@, s, d),
                chain_count(TokenType::Start, full, s, d),
            ) by {
            lemma_chain_count_nonneg(pre_prev, full.skip(tts@.len() as int), s, d);
            assert(chain_count(pre_prev, full.skip(tts@.len() as int), s, d) == (if pre_prev == s
                && TokenType::End == d {
                1int
            } else {
                0int
            }) + chain_count(TokenType::End, full.skip(tts@.len() as int).drop_first(), s, d));
            assert(full.skip(tts@.len() as int).drop_first() =~= Seq::<TokenType>::empty());
        }
    }
    Ok(tts)
}

} // verus!
