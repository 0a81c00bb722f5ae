//! Patterns: regular expressions that are matched against the path of a file
//! below the project root.
//!
//! The regular expressions themselves are the `regex` crate's. What this
//! module adds is the rule for texts that are no regular expression (they are
//! dropped, and reported to whoever asks), and matching against a list.

use crate::models::{lemma_texts_push, opt_str, texts};
use crate::text::{
    chars_of, lines, replace, replace_char, rows, split_lines, string_of, string_of_range,
    trim_range, trimmed,
};
use vstd::string::StringExecFns;
use regex::Regex;
use vstd::prelude::*;

verus! {

#[verifier::external_type_specification]
#[verifier::external_body]
pub struct ExRegex(Regex);

/// Whether `Regex::new` accepts `text`. A text is refused where it is no
/// regular expression, or where its compiled form would pass the crate's size
/// limit; the limit is counted in bytes of the compiled form, so this is meant
/// for one build of the library.
pub uninterp spec fn regex_compiles(text: Seq<char>) -> bool;

/// Whether the regular expression `text` matches somewhere in `haystack`: what
/// `Regex::is_match` returns for the expression that `Regex::new` made of
/// `text`.
pub uninterp spec fn regex_matches(text: Seq<char>, haystack: Seq<char>) -> bool;

/// What a pattern is for.
#[derive(Clone, Copy, Debug, PartialEq, Eq, Structural)]
pub enum PatternKind {
    Include,
    Exclude,
}

/// A regular expression in its compiled form, with the text it was compiled
/// from and its kind. There is no pattern without a compiled form: the only
/// way to make one is `Pattern::compile`, so `regex` is always what `Regex::new`
/// made of `text`.
#[derive(Debug)]
pub struct Pattern {
    text: String,
    kind: PatternKind,
    regex: Regex,
}

/// `Regex::new` on `text`. It fails on a text that is no regular expression,
/// or one whose compiled form would be too large; which texts those are is
/// left to `regex_compiles`. On success the pattern holds `text` and `kind`
/// beside the compiled form.
#[verifier::external_body]
fn regex_new(text: &str, kind: PatternKind) -> (r: Option<Pattern>)
    ensures
        r is Some <==> regex_compiles(text@),
        r matches Some(p) ==> p.source() == text@ && p.kind_of() == kind,
{
    match Regex::new(text) {
        Ok(regex) => Some(Pattern { text: text.to_string(), kind, regex }),
        Err(_) => None,
    }
}

/// `Regex::is_match` on the compiled form of `pattern`: whether the regular
/// expression matches anywhere in `haystack`.
#[verifier::external_body]
fn regex_is_match(pattern: &Pattern, haystack: &str) -> (b: bool)
    ensures
        b == regex_matches(pattern.source(), haystack@),
{
    pattern.regex.is_match(haystack)
}

impl Pattern {
    /// The text that the pattern was compiled from.
    pub closed spec fn source(&self) -> Seq<char> {
        self.text@
    }

    /// The pattern's kind.
    pub closed spec fn kind_of(&self) -> PatternKind {
        self.kind
    }

    /// Compiles `text`. A text that is no regular expression gives no pattern.
    pub fn compile(text: &str, kind: PatternKind) -> (r: Option<Pattern>)
        ensures
            r is Some <==> regex_compiles(text@),
            r matches Some(p) ==> p.source() == text@ && p.kind_of() == kind,
    {
        regex_new(text, kind)
    }

    /// Whether the pattern matches somewhere in `path`. A pattern that is to
    /// match the whole path says so itself, with `^` and `$`.
    pub fn is_match(&self, path: &str) -> (b: bool)
        ensures
            b == regex_matches(self.source(), path@),
    {
        regex_is_match(self, path)
    }

    /// The text that the pattern was compiled from.
    pub fn as_str(&self) -> (s: &str)
        ensures
            s@ == self.source(),
    {
        self.text.as_str()
    }

    /// The pattern's kind.
    pub fn kind(&self) -> (k: PatternKind)
        ensures
            k == self.kind_of(),
    {
        self.kind
    }
}

/// The text of each pattern.
pub open spec fn sources(patterns: Seq<Pattern>) -> Seq<Seq<char>> {
    Seq::new(patterns.len(), |i: int| patterns[i].source())
}

/// At least one of the regular expressions matches somewhere in `path`.
pub open spec fn matches_any(path: Seq<char>, sources: Seq<Seq<char>>) -> bool {
    exists|i: int| 0 <= i < sources.len() && regex_matches(#[trigger] sources[i], path)
}

/// Whether at least one of `patterns` matches somewhere in `text`.
pub fn is_in_patterns(text: &str, patterns: &[Pattern]) -> (b: bool)
    ensures
        b == matches_any(text@, sources(patterns@)),
{
    let mut i: usize = 0;
    while i < patterns.len()
        invariant
            i <= patterns.len(),
            forall|j: int| 0 <= j < i ==> !regex_matches(#[trigger] sources(patterns@)[j], text@),
        decreases patterns.len() - i,
    {
        if patterns[i].is_match(text) {
            assert(regex_matches(sources(patterns@)[i as int], text@));
            return true;
        }
        i += 1;
    }
    false
}

/// The lines that hold something.
pub open spec fn nonblank(lines: Seq<Seq<char>>) -> Seq<Seq<char>> {
    lines.filter(|l: Seq<char>| l.len() > 0)
}

/// The pattern texts that `text` holds, one to a line: its lines, trimmed,
/// without those that are empty then.
pub open spec fn pattern_texts(text: Seq<char>) -> Seq<Seq<char>> {
    nonblank(trimmed_lines(text))
}

/// The texts that are regular expressions.
pub open spec fn accepted(texts: Seq<Seq<char>>) -> Seq<Seq<char>> {
    texts.filter(|t: Seq<char>| regex_compiles(t))
}

/// The texts that are no regular expressions.
pub open spec fn rejected(texts: Seq<Seq<char>>) -> Seq<Seq<char>> {
    texts.filter(|t: Seq<char>| !regex_compiles(t))
}

proof fn lemma_nonblank_push(lines: Seq<Seq<char>>, l: Seq<char>)
    ensures
        nonblank(lines.push(l)) == if l.len() > 0 {
            nonblank(lines).push(l)
        } else {
            nonblank(lines)
        },
{
    lines.lemma_filter_push(l, |l: Seq<char>| l.len() > 0);
}

proof fn lemma_accepted_push(texts: Seq<Seq<char>>, t: Seq<char>)
    ensures
        accepted(texts.push(t)) == if regex_compiles(t) {
            accepted(texts).push(t)
        } else {
            accepted(texts)
        },
        rejected(texts.push(t)) == if regex_compiles(t) {
            rejected(texts)
        } else {
            rejected(texts).push(t)
        },
{
    texts.lemma_filter_push(t, |t: Seq<char>| regex_compiles(t));
    texts.lemma_filter_push(t, |t: Seq<char>| !regex_compiles(t));
}

proof fn lemma_filters_of_nothing()
    ensures
        nonblank(Seq::empty()) == Seq::<Seq<char>>::empty(),
        accepted(Seq::empty()) == Seq::<Seq<char>>::empty(),
        rejected(Seq::empty()) == Seq::<Seq<char>>::empty(),
{
    reveal(Seq::filter);
}

/// The pattern texts that `text` holds, one to a line: the lines of `text`,
/// trimmed, without those that are empty then.
pub fn pattern_lines(text: &str) -> (out: Vec<String>)
    ensures
        texts(out@) == pattern_texts(text@),
{
    let chars = chars_of(text);
    let all = lines(&chars);
    let ghost clean = trimmed_lines(text@);
    let mut out: Vec<String> = Vec::new();
    let mut i: usize = 0;
    proof {
        lemma_filters_of_nothing();
        assert(clean.take(0) =~= Seq::<Seq<char>>::empty());
        assert(texts(out@) =~= Seq::<Seq<char>>::empty());
    }
    while i < all.len()
        invariant
            i <= all.len(),
            rows(all@) == split_lines(text@),
            clean == trimmed_lines(text@),
            texts(out@) == nonblank(clean.take(i as int)),
        decreases all.len() - i,
    {
        let line = &all[i];
        let n = line.len();
        let (a, b) = trim_range(line, 0, n);
        proof {
            assert(line@.subrange(0, n as int) =~= line@);
            assert(clean[i as int] == trimmed(line@));
            assert(clean.take(i + 1) =~= clean.take(i as int).push(clean[i as int]));
            lemma_nonblank_push(clean.take(i as int), clean[i as int]);
        }
        if a < b {
            let piece = string_of_range(line, a, b);
            proof {
                lemma_texts_push(out@, piece);
            }
            out.push(piece);
        }
        i += 1;
    }
    assert(clean.take(all.len() as int) =~= clean);
    out
}

/// What compiling a list of pattern texts gives: the patterns, and the texts
/// that are no regular expressions.
#[derive(Debug)]
pub struct Compiled {
    pub patterns: Vec<Pattern>,
    pub rejected: Vec<String>,
}

/// Compiles the pattern texts that `text` holds, one to a line. A text that is
/// no regular expression gives no pattern, so there may be fewer patterns than
/// lines; such texts are handed back in `rejected`, in their order, for a
/// caller that wants to report or refuse them.
pub fn compile_patterns(text: &str, kind: PatternKind) -> (r: Compiled)
    ensures
        sources(r.patterns@) == accepted(pattern_texts(text@)),
        forall|i: int| 0 <= i < r.patterns.len() ==> (#[trigger] r.patterns[i]).kind_of() == kind,
        texts(r.rejected@) == rejected(pattern_texts(text@)),
{
    let found = pattern_lines(text);
    let ghost all = texts(found@);
    let mut patterns: Vec<Pattern> = Vec::new();
    let mut refused: Vec<String> = Vec::new();
    let mut i: usize = 0;
    proof {
        lemma_filters_of_nothing();
        assert(all.take(0) =~= Seq::<Seq<char>>::empty());
        assert(sources(patterns@) =~= Seq::<Seq<char>>::empty());
        assert(texts(refused@) =~= Seq::<Seq<char>>::empty());
    }
    while i < found.len()
        invariant
            i <= found.len(),
            all == texts(found@),
            sources(patterns@) == accepted(all.take(i as int)),
            texts(refused@) == rejected(all.take(i as int)),
            forall|j: int| 0 <= j < patterns.len() ==> (#[trigger] patterns[j]).kind_of() == kind,
        decreases found.len() - i,
    {
        proof {
            assert(all.take(i + 1) =~= all.take(i as int).push(all[i as int]));
            lemma_accepted_push(all.take(i as int), all[i as int]);
        }
        match Pattern::compile(found[i].as_str(), kind) {
            Some(p) => {
                assert(sources(patterns@.push(p)) =~= sources(patterns@).push(p.source()));
                patterns.push(p);
            },
            None => {
                let t = found[i].clone();
                proof {
                    lemma_texts_push(refused@, t);
                }
                refused.push(t);
            },
        }
        i += 1;
    }
    assert(all.take(found.len() as int) =~= all);
    Compiled { patterns, rejected: refused }
}

/// The characters that mean something in a regular expression.
pub open spec fn is_meta_character(c: char) -> bool {
    ||| c == '\\'
    ||| c == '.'
    ||| c == '+'
    ||| c == '*'
    ||| c == '?'
    ||| c == '('
    ||| c == ')'
    ||| c == '|'
    ||| c == '['
    ||| c == ']'
    ||| c == '{'
    ||| c == '}'
    ||| c == '^'
    ||| c == '$'
    ||| c == '#'
    ||| c == '&'
    ||| c == '-'
    ||| c == '~'
}

/// `text` with a backslash before each character that means something in a
/// regular expression.
pub open spec fn escaped(text: Seq<char>) -> Seq<char>
    decreases text.len(),
{
    if text.len() == 0 {
        Seq::<char>::empty()
    } else if is_meta_character(text.last()) {
        escaped(text.drop_last()).push('\\').push(text.last())
    } else {
        escaped(text.drop_last()).push(text.last())
    }
}

/// `regex::escape`: the text with a backslash put before each of the
/// characters `\ . + * ? ( ) | [ ] { } ^ $ # & - ~`, and nothing else changed.
#[verifier::external_body]
fn regex_escape(text: &str) -> (s: String)
    ensures
        s@ == escaped(text@),
{
    regex::escape(text)
}

/// The pattern that matches the path `name` and no other.
pub open spec fn exact_pattern(name: Seq<char>) -> Seq<char> {
    seq!['^'] + escaped(name) + seq!['$']
}

/// The pattern that matches every path that begins with `name`.
pub open spec fn prefix_pattern(name: Seq<char>) -> Seq<char> {
    seq!['^'] + escaped(name) + seq!['.', '*', '$']
}

/// The pattern that matches every path inside the folder `name`.
pub open spec fn inside_pattern(name: Seq<char>) -> Seq<char> {
    seq!['^'] + escaped(name) + seq!['/', '.', '*', '$']
}

/// The name that a picked file or folder is matched by: its path below the
/// project root with `/` between the segments, or, where it does not lie below
/// the root or there is no project, its own name.
pub open spec fn picked_name(relative: Option<Seq<char>>, file_name: Seq<char>) -> Seq<char> {
    match relative {
        Some(r) => replace_char(r, '\\', '/'),
        None => file_name,
    }
}

/// The name that a picked file or folder is matched by.
fn name_of_picked(relative: Option<&str>, file_name: &str) -> (name: String)
    ensures
        name@ == picked_name(
            opt_str(relative),
            file_name@,
        ),
{
    match relative {
        Some(r) => {
            let raw = chars_of(r);
            let clean = replace(&raw, '\\', '/');
            string_of(&clean)
        },
        None => file_name.to_string(),
    }
}

/// The include pattern for a picked file: it matches that file's path alone.
pub fn file_pattern(relative: Option<&str>, file_name: &str) -> (pattern: String)
    ensures
        pattern@ == exact_pattern(
            picked_name(
                opt_str(relative),
                file_name@,
            ),
        ),
{
    let name = name_of_picked(relative, file_name);
    let mut pattern = String::new();
    pattern.push('^');
    pattern.append(regex_escape(name.as_str()).as_str());
    pattern.push('$');
    assert(pattern@ =~= exact_pattern(name@));
    pattern
}

/// The include pattern for a picked folder: it matches every path that begins
/// with the folder's.
pub fn folder_pattern(relative: Option<&str>, folder_name: &str) -> (pattern: String)
    ensures
        pattern@ == prefix_pattern(
            picked_name(
                opt_str(relative),
                folder_name@,
            ),
        ),
{
    let name = name_of_picked(relative, folder_name);
    let mut pattern = String::new();
    pattern.push('^');
    pattern.append(regex_escape(name.as_str()).as_str());
    pattern.push('.');
    pattern.push('*');
    pattern.push('$');
    assert(pattern@ =~= prefix_pattern(name@));
    pattern
}

/// The exclude pattern for a folder picked to be left out: it matches every
/// path inside a folder of that name at the root.
pub fn excluded_folder_pattern(folder_name: &str) -> (pattern: String)
    ensures
        pattern@ == inside_pattern(folder_name@),
{
    let mut pattern = String::new();
    pattern.push('^');
    pattern.append(regex_escape(folder_name).as_str());
    pattern.push('/');
    pattern.push('.');
    pattern.push('*');
    pattern.push('$');
    assert(pattern@ =~= inside_pattern(folder_name@));
    pattern
}

/// `text`, closed by a line feed unless it is empty or has one at its end.
pub open spec fn closed_text(text: Seq<char>) -> Seq<char> {
    if text.len() > 0 && text.last() != '\n' {
        text.push('\n')
    } else {
        text
    }
}

/// The lines for the new ones among `patterns`: a pattern that is among
/// `known`, or that came earlier in `patterns`, gets no line.
pub open spec fn new_lines(known: Seq<Seq<char>>, patterns: Seq<Seq<char>>) -> Seq<char>
    decreases patterns.len(),
{
    if patterns.len() == 0 {
        Seq::<char>::empty()
    } else if known.contains(patterns[0]) {
        new_lines(known, patterns.drop_first())
    } else {
        patterns[0] + seq!['\n'] + new_lines(known.push(patterns[0]), patterns.drop_first())
    }
}

/// The lines of `text`, trimmed.
pub open spec fn trimmed_lines(text: Seq<char>) -> Seq<Seq<char>> {
    split_lines(text).map_values(|l: Seq<char>| trimmed(l))
}

/// Whether `wanted` is among `known`.
fn is_known(known: &Vec<String>, wanted: &String) -> (b: bool)
    ensures
        b == texts(known@).contains(wanted@),
{
    let mut i: usize = 0;
    while i < known.len()
        invariant
            i <= known.len(),
            forall|j: int| 0 <= j < i ==> texts(known@)[j] != wanted@,
        decreases known.len() - i,
    {
        if known[i] == *wanted {
            assert(texts(known@)[i as int] == wanted@);
            return true;
        }
        i += 1;
    }
    false
}

/// Appends a line feed to `text` unless it is empty or has one at its end.
fn close_text(text: &str) -> (r: (String, Vec<Vec<char>>))
    ensures
        r.0@ == closed_text(text@),
        rows(r.1@) == split_lines(text@),
{
    let chars = chars_of(text);
    let mut out = string_of(&chars);
    if chars.len() > 0 && chars[chars.len() - 1] != '\n' {
        out.push('\n');
    }
    (out, lines(&chars))
}

/// Adds a line for each of `patterns` to the pattern text `text`, unless the
/// text has that pattern on one of its lines already or it came earlier in
/// `patterns`.
pub fn add_new_patterns(text: &str, patterns: &[String]) -> (out: String)
    ensures
        out@ == closed_text(text@) + new_lines(trimmed_lines(text@), texts(patterns@)),
{
    let (mut out, all) = close_text(text);
    let ghost clean = trimmed_lines(text@);
    let mut known: Vec<String> = Vec::new();
    let mut i: usize = 0;
    assert(texts(known@) =~= clean.take(0));
    while i < all.len()
        invariant
            i <= all.len(),
            rows(all@) == split_lines(text@),
            clean == trimmed_lines(text@),
            texts(known@) == clean.take(i as int),
        decreases all.len() - i,
    {
        let line = &all[i];
        let n = line.len();
        let (a, b) = trim_range(line, 0, n);
        let piece = string_of_range(line, a, b);
        proof {
            assert(line@.subrange(0, n as int) =~= line@);
            assert(clean[i as int] == trimmed(line@));
            lemma_texts_push(known@, piece);
            assert(clean.take(i + 1) =~= clean.take(i as int).push(clean[i as int]));
        }
        known.push(piece);
        i += 1;
    }
    assert(clean.take(all.len() as int) =~= clean);
    let ghost wanted = texts(patterns@);
    let ghost goal = out@ + new_lines(clean, wanted);
    let mut k: usize = 0;
    assert(wanted.skip(0) =~= wanted);
    while k < patterns.len()
        invariant
            k <= patterns.len(),
            wanted == texts(patterns@),
            out@ + new_lines(texts(known@), wanted.skip(k as int)) == goal,
        decreases patterns.len() - k,
    {
        let pattern = &patterns[k];
        proof {
            let rest = wanted.skip(k as int);
            assert(rest[0] == pattern@);
            assert(rest.drop_first() =~= wanted.skip(k + 1));
        }
        if !is_known(&known, pattern) {
            let ghost before = out@;
            let ghost seen = texts(known@);
            out.append(pattern.as_str());
            out.push('\n');
            let copy = pattern.clone();
            proof {
                lemma_texts_push(known@, copy);
                assert(out@ + new_lines(seen.push(pattern@), wanted.skip(k + 1)) =~= before
                    + new_lines(seen, wanted.skip(k as int)));
            }
            known.push(copy);
        }
        k += 1;
    }
    assert(out@ + Seq::<char>::empty() =~= out@);
    out
}

/// Adds a line for `pattern` to the pattern text `text`, whether or not the
/// text has it already.
pub fn add_pattern(text: &str, pattern: &str) -> (out: String)
    ensures
        out@ == closed_text(text@) + pattern@ + seq!['\n'],
{
    let (mut out, _) = close_text(text);
    out.append(pattern);
    out.push('\n');
    out
}

} // verus!
