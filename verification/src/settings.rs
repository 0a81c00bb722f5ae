//! The settings file: plain text, one directive per line.

use crate::models::{lemma_texts_push, opt_text, texts, LoadedSettings, SettingsView};
use vstd::string::StringExecFns;
use crate::text::{
    chars_of, is_single_line, is_whitespace, lemma_split_first, lemma_split_pieces,
    lemma_split_single, lemma_trim_end_bounds, lemma_trim_end_len, lemma_trim_start_bounds, lemma_trimmed_bounds,
    lemma_trimmed_fixed, lines, rows, split_lines, starts_with, string_of_range, trim_start,
    trim_range, trimmed,
};
use vstd::prelude::*;

verus! {

/// The name of the settings file, which lies in the project's root.
pub const SETTINGS_FILE_NAME: &'static str = "text-read-settings.txt";

/// What one line of a settings file asks for.
pub enum Directive {
    /// An empty line, a comment, or a directive without a value.
    Nothing,
    OutputPath(Seq<char>),
    Exclude(Seq<char>),
    Memo(Seq<char>),
    Note(Seq<char>),
    Include(Seq<char>),
}

pub open spec fn output_prefix() -> Seq<char> {
    "OUTPUT_PATH="@
}

pub open spec fn exclude_prefix() -> Seq<char> {
    "EXCLUDE:"@
}

pub open spec fn memo_prefix() -> Seq<char> {
    "DEVNOTE:"@
}

pub open spec fn note_prefix() -> Seq<char> {
    "LLMNOTE:"@
}

/// The directive that the line `raw` stands for. What kind of line it is, is
/// read from the line without the whitespace around it. A pattern or a path is
/// taken without the whitespace around it; a memo or note line is all that
/// follows its prefix, whitespace at the line's end included.
pub open spec fn classify(raw: Seq<char>) -> Directive {
    let line = trimmed(raw);
    if line.len() == 0 || line[0] == '#' {
        Directive::Nothing
    } else if starts_with(line, output_prefix()) {
        let value = trimmed(line.skip(output_prefix().len() as int));
        if value.len() == 0 {
            Directive::Nothing
        } else {
            Directive::OutputPath(value)
        }
    } else if starts_with(line, exclude_prefix()) {
        let value = trimmed(line.skip(exclude_prefix().len() as int));
        if value.len() == 0 {
            Directive::Nothing
        } else {
            Directive::Exclude(value)
        }
    } else if starts_with(line, memo_prefix()) {
        Directive::Memo(trim_start(raw).skip(memo_prefix().len() as int))
    } else if starts_with(line, note_prefix()) {
        Directive::Note(trim_start(raw).skip(note_prefix().len() as int))
    } else {
        Directive::Include(line)
    }
}

/// The settings `s` after one more directive.
pub open spec fn apply(s: SettingsView, d: Directive) -> SettingsView {
    match d {
        Directive::Nothing => s,
        Directive::OutputPath(v) => SettingsView { output_path: Some(v), ..s },
        Directive::Exclude(v) => SettingsView { excludes: s.excludes.push(v), ..s },
        Directive::Memo(v) => SettingsView { memo: s.memo.push(v), ..s },
        Directive::Note(v) => SettingsView { notes: s.notes.push(v), ..s },
        Directive::Include(v) => SettingsView { includes: s.includes.push(v), ..s },
    }
}

/// Settings that hold nothing.
pub open spec fn empty_settings() -> SettingsView {
    SettingsView {
        includes: Seq::empty(),
        excludes: Seq::empty(),
        output_path: None,
        memo: Seq::empty(),
        notes: Seq::empty(),
    }
}

/// The settings `s` after the directives of `lines`, first line first.
pub open spec fn parse_lines(s: SettingsView, lines: Seq<Seq<char>>) -> SettingsView
    decreases lines.len(),
{
    if lines.len() == 0 {
        s
    } else {
        parse_lines(apply(s, classify(lines[0])), lines.drop_first())
    }
}

/// What a settings file with the content `text` holds.
pub open spec fn parse_settings(text: Seq<char>) -> SettingsView {
    parse_lines(empty_settings(), split_lines(text))
}

/// Where `chars[lo..hi]` goes on after `prefix`, if it begins with it.
fn after_prefix(chars: &Vec<char>, lo: usize, hi: usize, prefix: &str) -> (r: Option<usize>)
    requires
        lo <= hi <= chars.len(),
    ensures
        r is Some == starts_with(chars@.subrange(lo as int, hi as int), prefix@),
        r matches Some(k) ==> k == lo + prefix@.len() && k <= hi,
{
    let ghost part = chars@.subrange(lo as int, hi as int);
    let mut k: usize = lo;
    for c in it: prefix.chars()
        invariant
            it.seq() == prefix@,
            part == chars@.subrange(lo as int, hi as int),
            lo <= hi <= chars.len(),
            k == lo + it.index(),
            k <= hi,
            forall|j: int| 0 <= j < it.index() ==> part[j] == prefix@[j],
    {
        if k >= hi || chars[k] != c {
            proof {
                if k < hi {
                    let head = part.subrange(0, prefix@.len() as int);
                    if starts_with(part, prefix@) {
                        assert(head[k - lo] == part[k - lo]);
                    }
                }
            }
            return None;
        }
        k += 1;
    }
    assert(part.subrange(0, prefix@.len() as int) =~= prefix@);
    Some(k)
}

/// Takes one line of a settings file into `settings`.
fn take_line(settings: &mut LoadedSettings, line: &Vec<char>)
    ensures
        final(settings)@ == apply(old(settings)@, classify(line@)),
{
    let n = line.len();
    let (a, b) = trim_range(line, 0, n);
    assert(line@.subrange(0, n as int) =~= line@);
    let ghost tight = line@.subrange(a as int, b as int);
    let ghost front = line@.subrange(a as int, n as int);
    if a == b || line[a] == '#' {
        return ;
    }
    assert(tight[0] == line@[a as int]);
    if let Some(k) = after_prefix(line, a, b, "OUTPUT_PATH=") {
        assert(tight.skip(k - a) =~= line@.subrange(k as int, b as int));
        let (c, d) = trim_range(line, k, b);
        if c < d {
            settings.output_path = Some(string_of_range(line, c, d));
        }
    } else if let Some(k) = after_prefix(line, a, b, "EXCLUDE:") {
        assert(tight.skip(k - a) =~= line@.subrange(k as int, b as int));
        let (c, d) = trim_range(line, k, b);
        if c < d {
            let value = string_of_range(line, c, d);
            proof {
                lemma_texts_push(settings.patterns_exclude@, value);
            }
            settings.patterns_exclude.push(value);
        }
    } else if let Some(k) = after_prefix(line, a, b, "DEVNOTE:") {
        assert(front.skip(k - a) =~= line@.subrange(k as int, n as int));
        let value = string_of_range(line, k, n);
        proof {
            lemma_texts_push(settings.dev_memo@, value);
        }
        settings.dev_memo.push(value);
    } else if let Some(k) = after_prefix(line, a, b, "LLMNOTE:") {
        assert(front.skip(k - a) =~= line@.subrange(k as int, n as int));
        let value = string_of_range(line, k, n);
        proof {
            lemma_texts_push(settings.llm_note@, value);
        }
        settings.llm_note.push(value);
    } else {
        let value = string_of_range(line, a, b);
        proof {
            lemma_texts_push(settings.patterns_include@, value);
        }
        settings.patterns_include.push(value);
    }
}

/// Reads the content of a settings file. Every text is a settings file: a line
/// that is no directive is an include pattern, and the content of a missing
/// file, the empty text, gives empty settings.
///
/// A line ends at a line feed and nowhere else. A carriage return before the
/// line feed is the line's last character: it is whitespace, so it is dropped
/// from a pattern or a path, and it stays in a memo or note line.
pub fn load_settings(text: &str) -> (settings: LoadedSettings)
    ensures
        settings@ == parse_settings(text@),
{
    let chars = chars_of(text);
    let all = lines(&chars);
    let mut settings = LoadedSettings {
        patterns_include: Vec::new(),
        patterns_exclude: Vec::new(),
        output_path: None,
        dev_memo: Vec::new(),
        llm_note: Vec::new(),
    };
    proof {
        assert(texts(settings.patterns_include@) =~= Seq::<Seq<char>>::empty());
        assert(texts(settings.patterns_exclude@) =~= Seq::<Seq<char>>::empty());
        assert(texts(settings.dev_memo@) =~= Seq::<Seq<char>>::empty());
        assert(texts(settings.llm_note@) =~= Seq::<Seq<char>>::empty());
    }
    let mut i: usize = 0;
    assert(rows(all@).skip(0) =~= rows(all@));
    while i < all.len()
        invariant
            i <= all.len(),
            parse_lines(settings@, rows(all@).skip(i as int)) == parse_settings(text@),
        decreases all.len() - i,
    {
        proof {
            let rest = rows(all@).skip(i as int);
            assert(rest[0] == all@[i as int]@);
            assert(rest.drop_first() =~= rows(all@).skip(i + 1));
        }
        take_line(&mut settings, &all[i]);
        i += 1;
    }
    settings
}

/// The lines `prefix + item`, each closed by a line feed.
pub open spec fn prefixed_lines(prefix: Seq<char>, items: Seq<Seq<char>>) -> Seq<char>
    decreases items.len(),
{
    if items.len() == 0 {
        Seq::<char>::empty()
    } else {
        prefix + items[0] + seq!['\n'] + prefixed_lines(prefix, items.drop_first())
    }
}

/// The output path's line and the empty line after it, or nothing.
pub open spec fn output_path_lines(path: Option<Seq<char>>) -> Seq<char> {
    match path {
        Some(p) => output_prefix() + p + seq!['\n', '\n'],
        None => Seq::<char>::empty(),
    }
}

/// The content of the settings file that holds `s`: the output path, then the
/// include patterns as they are, then the exclude patterns, the memo lines and
/// the note lines, each behind its prefix.
pub open spec fn render_settings(s: SettingsView) -> Seq<char> {
    output_path_lines(s.output_path) + prefixed_lines(Seq::<char>::empty(), s.includes)
        + prefixed_lines(exclude_prefix(), s.excludes) + prefixed_lines(memo_prefix(), s.memo)
        + prefixed_lines(note_prefix(), s.notes)
}

/// The text of each string slice.
pub open spec fn strs(v: Seq<&str>) -> Seq<Seq<char>> {
    Seq::new(v.len(), |i: int| v[i]@)
}

/// Appends one line per item to `out`.
fn append_lines(out: &mut String, prefix: &str, items: &[&str])
    ensures
        final(out)@ == old(out)@ + prefixed_lines(prefix@, strs(items@)),
{
    let ghost all = strs(items@);
    let ghost goal = out@ + prefixed_lines(prefix@, all);
    let mut i: usize = 0;
    assert(all.skip(0) =~= all);
    while i < items.len()
        invariant
            i <= items.len(),
            all == strs(items@),
            out@ + prefixed_lines(prefix@, all.skip(i as int)) == goal,
        decreases items.len() - i,
    {
        proof {
            let rest = all.skip(i as int);
            assert(rest[0] == items@[i as int]@);
            assert(rest.drop_first() =~= all.skip(i + 1));
            assert(out@ + prefix@ + rest[0] + seq!['\n'] + prefixed_lines(prefix@, all.skip(i + 1))
                =~= out@ + prefixed_lines(prefix@, rest));
        }
        out.append(prefix);
        out.append(items[i]);
        out.push('\n');
        i += 1;
    }
    assert(out@ + Seq::<char>::empty() =~= out@);
}

/// Writes settings out as the content of a settings file. The file is made
/// anew each time: nothing of an earlier file is kept.
pub fn write_settings(
    include_patterns: &[&str],
    exclude_patterns: &[&str],
    output_path: &Option<String>,
    dev_memo: &[&str],
    llm_note: &[&str],
) -> (text: String)
    ensures
        text@ == render_settings(
            SettingsView {
                includes: strs(include_patterns@),
                excludes: strs(exclude_patterns@),
                output_path: opt_text(*output_path),
                memo: strs(dev_memo@),
                notes: strs(llm_note@),
            },
        ),
{
    let mut out = String::new();
    if let Some(path) = output_path {
        out.append("OUTPUT_PATH=");
        out.append(path.as_str());
        out.push('\n');
        out.push('\n');
        assert(out@ =~= output_prefix() + path@ + seq!['\n', '\n']);
    }
    proof {
        reveal_strlit("");
        assert(""@ =~= Seq::<char>::empty());
    }
    append_lines(&mut out, "", include_patterns);
    append_lines(&mut out, "EXCLUDE:", exclude_patterns);
    append_lines(&mut out, "DEVNOTE:", dev_memo);
    append_lines(&mut out, "LLMNOTE:", llm_note);
    out
}

/// A value that a settings line can carry: not empty, on one line, and with
/// no whitespace around it.
pub open spec fn is_value(s: Seq<char>) -> bool {
    s.len() > 0 && is_single_line(s) && trimmed(s) == s
}

/// An include pattern that a settings line can carry: a value that is taken
/// neither for a comment nor for another directive.
pub open spec fn is_include(s: Seq<char>) -> bool {
    &&& is_value(s)
    &&& s[0] != '#'
    &&& !starts_with(s, output_prefix())
    &&& !starts_with(s, exclude_prefix())
    &&& !starts_with(s, memo_prefix())
    &&& !starts_with(s, note_prefix())
}

/// A memo or note line that a settings line can carry: any text on one line.
pub open spec fn is_remark(s: Seq<char>) -> bool {
    is_single_line(s)
}

/// Settings that a settings file can hold as they are.
pub open spec fn storable(s: SettingsView) -> bool {
    &&& forall|i: int| 0 <= i < s.includes.len() ==> is_include(#[trigger] s.includes[i])
    &&& forall|i: int| 0 <= i < s.excludes.len() ==> is_value(#[trigger] s.excludes[i])
    &&& s.output_path matches Some(p) ==> is_value(p)
    &&& forall|i: int| 0 <= i < s.memo.len() ==> is_remark(#[trigger] s.memo[i])
    &&& forall|i: int| 0 <= i < s.notes.len() ==> is_remark(#[trigger] s.notes[i])
}

/// The four kinds of line that come in runs.
enum Section {
    Include,
    Exclude,
    Memo,
    Note,
}

spec fn section_prefix(k: Section) -> Seq<char> {
    match k {
        Section::Include => Seq::<char>::empty(),
        Section::Exclude => exclude_prefix(),
        Section::Memo => memo_prefix(),
        Section::Note => note_prefix(),
    }
}

spec fn section_directive(k: Section, v: Seq<char>) -> Directive {
    match k {
        Section::Include => Directive::Include(v),
        Section::Exclude => Directive::Exclude(v),
        Section::Memo => Directive::Memo(v),
        Section::Note => Directive::Note(v),
    }
}

spec fn section_fits(k: Section, v: Seq<char>) -> bool {
    match k {
        Section::Include => is_include(v),
        Section::Exclude => is_value(v),
        Section::Memo => is_remark(v),
        Section::Note => is_remark(v),
    }
}

spec fn extended(s: SettingsView, k: Section, items: Seq<Seq<char>>) -> SettingsView {
    match k {
        Section::Include => SettingsView { includes: s.includes + items, ..s },
        Section::Exclude => SettingsView { excludes: s.excludes + items, ..s },
        Section::Memo => SettingsView { memo: s.memo + items, ..s },
        Section::Note => SettingsView { notes: s.notes + items, ..s },
    }
}

/// The settings `s` after the lines of `text`.
spec fn parse_text(s: SettingsView, text: Seq<char>) -> SettingsView {
    parse_lines(s, split_lines(text))
}

proof fn lemma_prefixes()
    ensures
        output_prefix() == seq!['O', 'U', 'T', 'P', 'U', 'T', '_', 'P', 'A', 'T', 'H', '='],
        exclude_prefix() == seq!['E', 'X', 'C', 'L', 'U', 'D', 'E', ':'],
        memo_prefix() == seq!['D', 'E', 'V', 'N', 'O', 'T', 'E', ':'],
        note_prefix() == seq!['L', 'L', 'M', 'N', 'O', 'T', 'E', ':'],
{
    reveal_strlit("OUTPUT_PATH=");
    reveal_strlit("EXCLUDE:");
    reveal_strlit("DEVNOTE:");
    reveal_strlit("LLMNOTE:");
    assert(output_prefix() =~= seq!['O', 'U', 'T', 'P', 'U', 'T', '_', 'P', 'A', 'T', 'H', '=']);
    assert(exclude_prefix() =~= seq!['E', 'X', 'C', 'L', 'U', 'D', 'E', ':']);
    assert(memo_prefix() =~= seq!['D', 'E', 'V', 'N', 'O', 'T', 'E', ':']);
    assert(note_prefix() =~= seq!['L', 'L', 'M', 'N', 'O', 'T', 'E', ':']);
}

/// A text whose first character differs from that of `prefix` does not begin
/// with `prefix`.
proof fn lemma_other_start(s: Seq<char>, prefix: Seq<char>)
    requires
        prefix.len() > 0,
        s.len() > 0,
        s[0] != prefix[0],
    ensures
        !starts_with(s, prefix),
{
    if starts_with(s, prefix) {
        assert(s.subrange(0, prefix.len() as int)[0] == s[0]);
    }
}

/// `prefix + v` is a line that reads as itself once trimmed, where `prefix`
/// begins with a letter and `v` does not end with whitespace.
proof fn lemma_prefixed_line(prefix: Seq<char>, v: Seq<char>)
    requires
        prefix.len() > 0,
        is_single_line(prefix),
        !is_whitespace(prefix[0]),
        !is_whitespace(prefix.last()),
        is_single_line(v),
        v.len() == 0 || !is_whitespace(v.last()),
    ensures
        is_single_line(prefix + v),
        trimmed(prefix + v) == prefix + v,
        starts_with(prefix + v, prefix),
        (prefix + v).skip(prefix.len() as int) == v,
        (prefix + v)[0] == prefix[0],
{
    let l = prefix + v;
    assert forall|i: int| 0 <= i < l.len() implies l[i] != '\n' by {
        if i < prefix.len() {
            assert(l[i] == prefix[i]);
        } else {
            assert(l[i] == v[i - prefix.len()]);
        }
    }
    if v.len() == 0 {
        assert(l.last() == prefix.last());
    } else {
        assert(l.last() == v.last());
    }
    lemma_trimmed_fixed(l);
    assert(l.subrange(0, prefix.len() as int) =~= prefix);
    assert(l.skip(prefix.len() as int) =~= v);
}

/// `prefix + v` is a line that still begins with `prefix` once trimmed, and
/// that loses nothing at its front, where `prefix` neither begins nor ends with
/// whitespace.
proof fn lemma_remark_line(prefix: Seq<char>, v: Seq<char>)
    requires
        prefix.len() > 0,
        is_single_line(prefix),
        !is_whitespace(prefix[0]),
        !is_whitespace(prefix.last()),
        is_single_line(v),
    ensures
        is_single_line(prefix + v),
        trim_start(prefix + v) == prefix + v,
        trimmed(prefix + v).len() > 0,
        trimmed(prefix + v)[0] == prefix[0],
        starts_with(trimmed(prefix + v), prefix),
        (prefix + v).skip(prefix.len() as int) == v,
{
    let l = prefix + v;
    let n = prefix.len() as int;
    assert forall|i: int| 0 <= i < l.len() implies l[i] != '\n' by {
        if i < n {
            assert(l[i] == prefix[i]);
        } else {
            assert(l[i] == v[i - n]);
        }
    }
    assert(l[0] == prefix[0]);
    assert(trim_start(l) == l);
    let b = lemma_trim_end_bounds(l);
    assert(l[n - 1] == prefix.last());
    assert(b >= n);
    assert(l.subrange(0, b).subrange(0, n) =~= prefix);
    assert(l.subrange(0, b)[0] == l[0]);
    assert(l.skip(n) =~= v);
}

/// A line of a section reads as the section's directive.
proof fn lemma_classify_section(k: Section, v: Seq<char>)
    requires
        section_fits(k, v),
    ensures
        is_single_line(section_prefix(k) + v),
        classify(section_prefix(k) + v) == section_directive(k, v),
{
    lemma_prefixes();
    let p = section_prefix(k);
    let l = p + v;
    match k {
        Section::Include => {
            assert(l =~= v);
        },
        Section::Exclude => {
            lemma_trimmed_fixed(v);
            lemma_prefixed_line(p, v);
            lemma_other_start(l, output_prefix());
        },
        Section::Memo => {
            lemma_remark_line(p, v);
            lemma_other_start(trimmed(l), output_prefix());
            lemma_other_start(trimmed(l), exclude_prefix());
        },
        Section::Note => {
            lemma_remark_line(p, v);
            lemma_other_start(trimmed(l), output_prefix());
            lemma_other_start(trimmed(l), exclude_prefix());
            lemma_other_start(trimmed(l), memo_prefix());
        },
    }
}

/// Reading a line and what follows it is reading what follows it after the
/// line's directive.
proof fn lemma_parse_first_line(s: SettingsView, line: Seq<char>, rest: Seq<char>)
    requires
        is_single_line(line),
    ensures
        parse_text(s, line + seq!['\n'] + rest) == parse_text(apply(s, classify(line)), rest),
{
    lemma_split_first(line, '\n', rest);
    let all = split_lines(line + seq!['\n'] + rest);
    assert(all[0] == line);
    assert(all.drop_first() =~= split_lines(rest));
}

/// Reading a run of lines of one section appends their values to that section.
proof fn lemma_parse_section(s: SettingsView, k: Section, items: Seq<Seq<char>>, rest: Seq<char>)
    requires
        forall|i: int| 0 <= i < items.len() ==> section_fits(k, #[trigger] items[i]),
    ensures
        parse_text(s, prefixed_lines(section_prefix(k), items) + rest) == parse_text(
            extended(s, k, items),
            rest,
        ),
    decreases items.len(),
{
    let p = section_prefix(k);
    if items.len() == 0 {
        assert(prefixed_lines(p, items) + rest =~= rest);
        assert(s.includes + items =~= s.includes);
        assert(s.excludes + items =~= s.excludes);
        assert(s.memo + items =~= s.memo);
        assert(s.notes + items =~= s.notes);
    } else {
        let line = p + items[0];
        let tail = items.drop_first();
        let after = prefixed_lines(p, tail) + rest;
        assert(section_fits(k, items[0]));
        lemma_classify_section(k, items[0]);
        assert(prefixed_lines(p, items) + rest =~= line + seq!['\n'] + after);
        lemma_parse_first_line(s, line, after);
        let next = apply(s, section_directive(k, items[0]));
        assert forall|i: int| 0 <= i < tail.len() implies section_fits(k, #[trigger] tail[i]) by {
            assert(tail[i] == items[i + 1]);
        }
        lemma_parse_section(next, k, tail, rest);
        assert(s.includes.push(items[0]) + tail =~= s.includes + items);
        assert(s.excludes.push(items[0]) + tail =~= s.excludes + items);
        assert(s.memo.push(items[0]) + tail =~= s.memo + items);
        assert(s.notes.push(items[0]) + tail =~= s.notes + items);
        assert(extended(next, k, tail) == extended(s, k, items));
    }
}

/// Reading the output path's two lines sets the output path.
proof fn lemma_parse_output_path(path: Option<Seq<char>>, rest: Seq<char>)
    requires
        path matches Some(p) ==> is_value(p),
    ensures
        parse_text(empty_settings(), output_path_lines(path) + rest) == parse_text(
            SettingsView { output_path: path, ..empty_settings() },
            rest,
        ),
{
    match path {
        None => {
            assert(output_path_lines(path) + rest =~= rest);
        },
        Some(p) => {
            lemma_prefixes();
            let line = output_prefix() + p;
            lemma_trimmed_fixed(p);
            lemma_prefixed_line(output_prefix(), p);
            let blank = Seq::<char>::empty();
            assert(output_path_lines(path) + rest =~= line + seq!['\n'] + (blank + seq!['\n']
                + rest));
            lemma_parse_first_line(empty_settings(), line, blank + seq!['\n'] + rest);
            let set = apply(empty_settings(), classify(line));
            lemma_parse_first_line(set, blank, rest);
        },
    }
}

/// Settings that a settings file can hold come back from it as they went in.
pub proof fn lemma_storable_round_trip(s: SettingsView)
    requires
        storable(s),
    ensures
        parse_settings(render_settings(s)) == s,
{
    let none = Seq::<char>::empty();
    let includes = prefixed_lines(section_prefix(Section::Include), s.includes);
    let excludes = prefixed_lines(section_prefix(Section::Exclude), s.excludes);
    let memo = prefixed_lines(section_prefix(Section::Memo), s.memo);
    let notes = prefixed_lines(section_prefix(Section::Note), s.notes);
    let head = output_path_lines(s.output_path);
    assert(render_settings(s) =~= head + (includes + (excludes + (memo + (notes + none)))));
    lemma_parse_output_path(s.output_path, includes + (excludes + (memo + (notes + none))));
    let s0 = SettingsView { output_path: s.output_path, ..empty_settings() };
    lemma_parse_section(s0, Section::Include, s.includes, excludes + (memo + (notes + none)));
    let s1 = extended(s0, Section::Include, s.includes);
    lemma_parse_section(s1, Section::Exclude, s.excludes, memo + (notes + none));
    let s2 = extended(s1, Section::Exclude, s.excludes);
    lemma_parse_section(s2, Section::Memo, s.memo, notes + none);
    let s3 = extended(s2, Section::Memo, s.memo);
    lemma_parse_section(s3, Section::Note, s.notes, none);
    let s4 = extended(s3, Section::Note, s.notes);
    assert(parse_text(s4, none) == s4) by {
        lemma_split_single(none, '\n');
        let all = split_lines(none);
        assert(all[0] == none);
        assert(all.drop_first() =~= Seq::<Seq<char>>::empty());
        assert(parse_lines(apply(s4, classify(none)), all.drop_first()) == s4);
    }
    assert(s4.includes =~= s.includes);
    assert(s4.excludes =~= s.excludes);
    assert(s4.memo =~= s.memo);
    assert(s4.notes =~= s.notes);
}

/// One more line leaves storable settings storable.
proof fn lemma_apply_storable(s: SettingsView, raw: Seq<char>)
    requires
        storable(s),
        is_single_line(raw),
    ensures
        storable(apply(s, classify(raw))),
{
    let (a, b) = lemma_trimmed_bounds(raw);
    let line = trimmed(raw);
    assert(is_single_line(line)) by {
        assert forall|i: int| 0 <= i < line.len() implies line[i] != '\n' by {
            assert(line[i] == raw[a + i]);
        }
    }
    if line.len() > 0 {
        assert(line[0] == raw[a]);
        assert(line.last() == raw[b - 1]);
        lemma_trimmed_fixed(line);
    }
    let next = apply(s, classify(raw));
    match classify(raw) {
        Directive::Nothing => {},
        Directive::OutputPath(v) => {
            lemma_value_of(line.skip(output_prefix().len() as int));
        },
        Directive::Exclude(v) => {
            lemma_value_of(line.skip(exclude_prefix().len() as int));
            assert forall|i: int| 0 <= i < next.excludes.len() implies is_value(
                #[trigger] next.excludes[i],
            ) by {
                if i < s.excludes.len() {
                    assert(next.excludes[i] == s.excludes[i]);
                }
            }
        },
        Directive::Memo(v) => {
            lemma_remark_of(raw, memo_prefix());
            assert forall|i: int| 0 <= i < next.memo.len() implies is_remark(
                #[trigger] next.memo[i],
            ) by {
                if i < s.memo.len() {
                    assert(next.memo[i] == s.memo[i]);
                }
            }
        },
        Directive::Note(v) => {
            lemma_remark_of(raw, note_prefix());
            assert forall|i: int| 0 <= i < next.notes.len() implies is_remark(
                #[trigger] next.notes[i],
            ) by {
                if i < s.notes.len() {
                    assert(next.notes[i] == s.notes[i]);
                }
            }
        },
        Directive::Include(v) => {
            assert forall|i: int| 0 <= i < next.includes.len() implies is_include(
                #[trigger] next.includes[i],
            ) by {
                if i < s.includes.len() {
                    assert(next.includes[i] == s.includes[i]);
                }
            }
        },
    }
}

/// The trimmed form of a piece of a line is a value, unless it is empty.
proof fn lemma_value_of(piece: Seq<char>)
    requires
        is_single_line(piece),
    ensures
        trimmed(piece).len() > 0 ==> is_value(trimmed(piece)),
{
    let (a, b) = lemma_trimmed_bounds(piece);
    let v = trimmed(piece);
    assert forall|i: int| 0 <= i < v.len() implies v[i] != '\n' by {
        assert(v[i] == piece[a + i]);
    }
    if v.len() > 0 {
        assert(v[0] == piece[a]);
        assert(v.last() == piece[b - 1]);
        lemma_trimmed_fixed(v);
    }
}

/// What follows a prefix on a line is a memo or note line.
proof fn lemma_remark_of(raw: Seq<char>, prefix: Seq<char>)
    requires
        is_single_line(raw),
        starts_with(trimmed(raw), prefix),
    ensures
        is_remark(trim_start(raw).skip(prefix.len() as int)),
{
    let a = lemma_trim_start_bounds(raw);
    let front = trim_start(raw);
    lemma_trim_end_len(front);
    let v = front.skip(prefix.len() as int);
    assert forall|i: int| 0 <= i < v.len() implies v[i] != '\n' by {
        assert(v[i] == front[prefix.len() + i]);
        assert(front[prefix.len() + i] == raw[a + prefix.len() + i]);
    }
}

/// More lines leave storable settings storable.
proof fn lemma_parse_lines_storable(s: SettingsView, lines: Seq<Seq<char>>)
    requires
        storable(s),
        forall|i: int| 0 <= i < lines.len() ==> is_single_line(#[trigger] lines[i]),
    ensures
        storable(parse_lines(s, lines)),
    decreases lines.len(),
{
    if lines.len() > 0 {
        assert(is_single_line(lines[0]));
        lemma_apply_storable(s, lines[0]);
        let tail = lines.drop_first();
        assert forall|i: int| 0 <= i < tail.len() implies is_single_line(#[trigger] tail[i]) by {
            assert(tail[i] == lines[i + 1]);
        }
        lemma_parse_lines_storable(apply(s, classify(lines[0])), tail);
    }
}

/// Whatever a settings file holds, what is read from it can be stored as it is.
pub proof fn lemma_loaded_is_storable(text: Seq<char>)
    ensures
        storable(parse_settings(text)),
{
    lemma_split_pieces(text, '\n');
    lemma_parse_lines_storable(empty_settings(), split_lines(text));
}

/// Writing settings and reading them back gives the same settings exactly
/// when a settings file can hold them: every include pattern, exclude pattern
/// and output path is a non-empty line without whitespace around it, no
/// include pattern reads as a comment or as another directive, and no memo or
/// note line holds a line feed.
pub proof fn lemma_round_trip(s: SettingsView)
    ensures
        parse_settings(render_settings(s)) == s <==> storable(s),
{
    if storable(s) {
        lemma_storable_round_trip(s);
    }
    if parse_settings(render_settings(s)) == s {
        lemma_loaded_is_storable(render_settings(s));
    }
}

} // verus!
