//! Snapshots: copies of the collected files under
//! `target/backup/<time>-<label>`, each at its path below the project root.
//!
//! What is decided here is the directory's name and which file goes where.
//! The copying itself is left to the caller.

use crate::clock::{
    is_name_stamp, is_name_stamp_char, is_snapshot_stamp, lemma_snapshot_stamp_is_safe,
    local_time_texts,
};
use crate::text::{
    chars_of, join, lacks, lemma_split_join, lemma_split_pieces, replace, replace_char, rows,
    split, split_on, string_of, string_of_range, trim_range, trimmed,
};
use vstd::prelude::*;
use vstd::string::StringExecFns;

verus! {

/// A letter of the Latin alphabet or a digit.
pub open spec fn is_alphanumeric(c: char) -> bool {
    ||| 'A' <= c <= 'Z'
    ||| 'a' <= c <= 'z'
    ||| '0' <= c <= '9'
}

/// A label for a snapshot: one or more letters and digits, nothing else.
pub open spec fn is_label(s: Seq<char>) -> bool {
    s.len() > 0 && forall|i: int| 0 <= i < s.len() ==> is_alphanumeric(#[trigger] s[i])
}

/// The label that stands for what the user typed: the input without the
/// whitespace around it where that is a label, and else none, the empty text.
pub open spec fn accepted_comment(input: Seq<char>) -> Seq<char> {
    if is_label(trimmed(input)) {
        trimmed(input)
    } else {
        Seq::<char>::empty()
    }
}

/// The name of a snapshot directory: the time, a hyphen, and the label, or
/// `snapshot` where there is no label.
pub open spec fn folder_name(stamp: Seq<char>, comment: Seq<char>) -> Seq<char> {
    stamp + seq!['-'] + if comment.len() == 0 {
        "snapshot"@
    } else {
        comment
    }
}

/// What became of the text that the user typed as a label.
#[derive(Debug)]
pub struct CheckedLabel {
    /// The label to use; empty where none was given or the input was refused.
    pub comment: String,
    /// The input held something, and it was no label.
    pub refused: bool,
}

/// Whether `c` is a letter of the Latin alphabet or a digit.
pub fn char_is_alphanumeric(c: char) -> (b: bool)
    ensures
        b == is_alphanumeric(c),
{
    ('A' <= c && c <= 'Z') || ('a' <= c && c <= 'z') || ('0' <= c && c <= '9')
}

/// Checks what the user typed as a label. Whitespace around it does not count.
/// Input that is not made of letters and digits alone is refused, and the
/// snapshot then goes without a label.
pub fn check_label(input: &str) -> (r: CheckedLabel)
    ensures
        r.comment@ == accepted_comment(input@),
        r.refused == (trimmed(input@).len() > 0 && !is_label(trimmed(input@))),
{
    let chars = chars_of(input);
    let n = chars.len();
    let (a, b) = trim_range(&chars, 0, n);
    assert(chars@.subrange(0, n as int) =~= chars@);
    let ghost tight = chars@.subrange(a as int, b as int);
    if a == b {
        return CheckedLabel { comment: String::new(), refused: false };
    }
    let mut i: usize = a;
    while i < b
        invariant
            a <= i <= b <= chars.len(),
            tight == chars@.subrange(a as int, b as int),
            tight == trimmed(input@),
            forall|j: int| 0 <= j < i - a ==> is_alphanumeric(#[trigger] tight[j]),
        decreases b - i,
    {
        if !char_is_alphanumeric(chars[i]) {
            assert(!is_alphanumeric(tight[i - a]));
            return CheckedLabel { comment: String::new(), refused: true };
        }
        i += 1;
    }
    CheckedLabel { comment: string_of_range(&chars, a, b), refused: false }
}

/// The name of the snapshot directory for the time `stamp`. The label is taken
/// as it is: checking it is the caller's part, see `check_label`.
pub fn snapshot_folder_name(stamp: &str, folder_comment: &str) -> (name: String)
    ensures
        name@ == folder_name(stamp@, folder_comment@),
{
    let mut name = String::new();
    name.append(stamp);
    name.push('-');
    if folder_comment.is_empty() {
        name.append("snapshot");
    } else {
        name.append(folder_comment);
    }
    assert(name@ =~= folder_name(stamp@, folder_comment@));
    name
}

/// A collected file as the snapshot sees it.
#[derive(Clone, Debug)]
pub struct BackupSource {
    /// The file's path.
    pub path: String,
    /// Its path below the project root, where it lies below the root.
    pub relative: Option<String>,
    /// Whether the file is still there.
    pub exists: bool,
}

/// One file to copy.
#[derive(Clone, Debug)]
pub struct CopyJob {
    /// The file to copy.
    pub source: String,
    /// Where the copy goes, as a path below the snapshot directory.
    pub target: String,
}

/// A snapshot to make.
#[derive(Debug)]
pub struct BackupPlan {
    /// The path of the snapshot directory below the project root, segment by
    /// segment.
    pub directory: Vec<String>,
    /// The files to copy, in order.
    pub jobs: Vec<CopyJob>,
}

/// A source as plain values.
pub struct SourceView {
    pub path: Seq<char>,
    pub relative: Option<Seq<char>>,
    pub exists: bool,
}

/// A copy as two texts.
pub struct JobView {
    pub source: Seq<char>,
    pub target: Seq<char>,
}

impl View for BackupSource {
    type V = SourceView;

    open spec fn view(&self) -> SourceView {
        SourceView {
            path: self.path@,
            relative: match self.relative {
                Some(r) => Some(r@),
                None => None,
            },
            exists: self.exists,
        }
    }
}

impl View for CopyJob {
    type V = JobView;

    open spec fn view(&self) -> JobView {
        JobView { source: self.source@, target: self.target@ }
    }
}

/// The view of each source.
pub open spec fn source_views(v: Seq<BackupSource>) -> Seq<SourceView> {
    Seq::new(v.len(), |i: int| v[i]@)
}

/// The view of each copy.
pub open spec fn job_views(v: Seq<CopyJob>) -> Seq<JobView> {
    Seq::new(v.len(), |i: int| v[i]@)
}

/// A segment that names a file or a directory: not empty, not `.` or `..`,
/// and not a drive such as `C:`.
pub open spec fn is_plain_segment(seg: Seq<char>) -> bool {
    &&& seg.len() > 0
    &&& seg != seq!['.']
    &&& seg != seq!['.', '.']
    &&& seg.last() != ':'
}

/// The segments of a path that name a file or a directory, in order. The path
/// may have `/` or `\` between its segments.
pub open spec fn plain_segments(path: Seq<char>) -> Seq<Seq<char>> {
    split_on(replace_char(path, '\\', '/'), '/').filter(|seg: Seq<char>| is_plain_segment(seg))
}

/// A path without its root: its plain segments with `/` between them. It
/// leads below whatever directory it is joined to.
pub open spec fn detached(path: Seq<char>) -> Seq<char> {
    join(plain_segments(path), seq!['/'])
}

/// The copy that a source asks for: to its path below the root, and where it
/// does not lie below the root, to its whole path without the root.
pub open spec fn job_for(s: SourceView) -> JobView {
    JobView {
        source: s.path,
        target: match s.relative {
            Some(r) => r,
            None => detached(s.path),
        },
    }
}

/// A path without its root leads below the directory it is joined to: each of
/// its segments names a file or a directory, so none is empty, none leads back
/// up, and none is a drive.
pub proof fn lemma_detached_stays_below(path: Seq<char>)
    requires
        plain_segments(path).len() > 0,
    ensures
        split_on(detached(path), '/') == plain_segments(path),
        forall|k: int|
            0 <= k < plain_segments(path).len() ==> is_plain_segment(
                #[trigger] plain_segments(path)[k],
            ),
{
    let all = split_on(replace_char(path, '\\', '/'), '/');
    let kept = plain_segments(path);
    let plain = |seg: Seq<char>| is_plain_segment(seg);
    all.filter_lemma(plain);
    lemma_split_pieces(replace_char(path, '\\', '/'), '/');
    assert forall|k: int| 0 <= k < kept.len() implies lacks(#[trigger] kept[k], '/') by {
        assert(kept.contains(kept[k]));
        all.lemma_filter_contains_rev(plain, kept[k]);
        let j = choose|j: int| 0 <= j < all.len() && all[j] == kept[k];
        assert(lacks(all[j], '/'));
    }
    lemma_split_join(kept, '/');
}

/// Whether the segment names a file or a directory.
fn names_something(seg: &Vec<char>) -> (b: bool)
    ensures
        b == is_plain_segment(seg@),
{
    let n = seg.len();
    if n == 0 {
        return false;
    }
    if n == 1 && seg[0] == '.' {
        assert(seg@ =~= seq!['.']);
        return false;
    }
    if n == 2 && seg[0] == '.' && seg[1] == '.' {
        assert(seg@ =~= seq!['.', '.']);
        return false;
    }
    proof {
        if seg@ == seq!['.'] {
            assert(seg@.len() == 1 && seg@[0] == '.');
        }
        if seg@ == seq!['.', '.'] {
            assert(seg@.len() == 2 && seg@[0] == '.' && seg@[1] == '.');
        }
    }
    seg[n - 1] != ':'
}

/// The path without its root.
pub fn detach(path: &str) -> (out: String)
    ensures
        out@ == detached(path@),
{
    let raw = chars_of(path);
    let clean = replace(&raw, '\\', '/');
    let segs = split(&clean, '/');
    let ghost all = rows(segs@);
    let ghost sep = seq!['/'];
    let mut out = String::new();
    let mut nothing_yet = true;
    let mut i: usize = 0;
    proof {
        assert(all.take(0) =~= Seq::<Seq<char>>::empty());
        reveal(Seq::filter);
    }
    while i < segs.len()
        invariant
            i <= segs.len(),
            all == rows(segs@),
            sep == seq!['/'],
            out@ == join(all.take(i as int).filter(|seg: Seq<char>| is_plain_segment(seg)), sep),
            nothing_yet == (all.take(i as int).filter(|seg: Seq<char>| is_plain_segment(seg)).len()
                == 0),
        decreases segs.len() - i,
    {
        let seg = &segs[i];
        let ghost before = all.take(i as int).filter(|seg: Seq<char>| is_plain_segment(seg));
        proof {
            assert(all.take(i + 1) =~= all.take(i as int).push(seg@));
            all.take(i as int).lemma_filter_push(seg@, |seg: Seq<char>| is_plain_segment(seg));
        }
        if names_something(seg) {
            if !nothing_yet {
                out.push('/');
            }
            out.append(string_of(seg).as_str());
            proof {
                let kept = before.push(seg@);
                assert(kept.drop_last() =~= before);
                if before.len() == 0 {
                    assert(out@ =~= kept[0]);
                } else {
                    assert(out@ =~= join(before, sep) + sep + kept.last());
                }
            }
            nothing_yet = false;
        }
        i += 1;
    }
    assert(all.take(segs.len() as int) =~= all);
    out
}

/// The copies to make: one for each source that is still there, in order.
pub open spec fn planned_jobs(sources: Seq<SourceView>) -> Seq<JobView>
    decreases sources.len(),
{
    if sources.len() == 0 {
        Seq::<JobView>::empty()
    } else {
        let before = planned_jobs(sources.drop_last());
        if sources.last().exists {
            before.push(job_for(sources.last()))
        } else {
            before
        }
    }
}

/// The snapshot directory's path below the project root.
pub open spec fn snapshot_directory(name: Seq<char>) -> Seq<Seq<char>> {
    seq!["target"@, "backup"@, name]
}

/// The text of each string.
pub open spec fn segment_texts(v: Seq<String>) -> Seq<Seq<char>> {
    Seq::new(v.len(), |i: int| v[i]@)
}

/// Plans the snapshot made at the time `stamp`: where it goes, and which files
/// are copied where. A file that is no longer there is passed over. Nothing is
/// scanned anew: the sources are what an earlier collection found.
pub fn plan_backup(stamp: &str, sources: &[BackupSource], folder_comment: &str) -> (plan:
    BackupPlan)
    ensures
        segment_texts(plan.directory@) == snapshot_directory(
            folder_name(stamp@, folder_comment@),
        ),
        job_views(plan.jobs@) == planned_jobs(source_views(sources@)),
{
    let mut directory: Vec<String> = Vec::new();
    directory.push("target".to_string());
    directory.push("backup".to_string());
    directory.push(snapshot_folder_name(stamp, folder_comment));
    assert(segment_texts(directory@) =~= snapshot_directory(folder_name(stamp@, folder_comment@)));
    let ghost all = source_views(sources@);
    let mut jobs: Vec<CopyJob> = Vec::new();
    let mut i: usize = 0;
    assert(all.take(0) =~= Seq::<SourceView>::empty());
    assert(job_views(jobs@) =~= Seq::<JobView>::empty());
    while i < sources.len()
        invariant
            i <= sources.len(),
            all == source_views(sources@),
            job_views(jobs@) == planned_jobs(all.take(i as int)),
        decreases sources.len() - i,
    {
        let source = &sources[i];
        proof {
            assert(all.take(i + 1).drop_last() =~= all.take(i as int));
            assert(all.take(i + 1).last() == source@);
        }
        if source.exists {
            let target = match &source.relative {
                Some(r) => r.clone(),
                None => detach(source.path.as_str()),
            };
            let job = CopyJob { source: source.path.clone(), target };
            assert(job_views(jobs@.push(job)) =~= job_views(jobs@).push(job@));
            jobs.push(job);
        }
        i += 1;
    }
    assert(all.take(sources.len() as int) =~= all);
    BackupPlan { directory, jobs }
}

/// Plans a snapshot made now. The directory's name begins with the local time,
/// to the second, as `<year>-mm-dd_HHMMSS`: two snapshots with the same label
/// within one second get the same name, and the later one overwrites the
/// earlier.
pub fn backup_included_files(sources: &[BackupSource], folder_comment: &str) -> (plan: BackupPlan)
    ensures
        exists|stamp: Seq<char>|
            is_snapshot_stamp(stamp) && segment_texts(plan.directory@) == snapshot_directory(
                #[trigger] folder_name(stamp, folder_comment@),
            ),
        job_views(plan.jobs@) == planned_jobs(source_views(sources@)),
{
    let formats: [&str; 1] = ["%Y-%m-%d_%H%M%S"];
    let stamps = local_time_texts(formats.as_slice());
    let plan = plan_backup(stamps[0].as_str(), sources, folder_comment);
    assert(is_snapshot_stamp(stamps@[0]@));
    assert(segment_texts(plan.directory@) == snapshot_directory(
        folder_name(stamps@[0]@, folder_comment@),
    ));
    plan
}

/// Safe in a file's name on every file system: letters of the Latin alphabet,
/// digits, hyphens, plus signs and underscores, and nothing else.
pub open spec fn is_safe_name(s: Seq<char>) -> bool {
    forall|i: int|
        0 <= i < s.len() ==> is_alphanumeric(#[trigger] s[i]) || is_name_stamp_char(s[i])
}

/// The name of a snapshot directory is safe in a file's name, where the label
/// is what `check_label` made of the user's input.
pub proof fn lemma_folder_name_is_safe(stamp: Seq<char>, input: Seq<char>)
    requires
        is_snapshot_stamp(stamp),
    ensures
        is_safe_name(folder_name(stamp, accepted_comment(input))),
{
    lemma_snapshot_stamp_is_safe(stamp);
    assert(is_name_stamp(stamp));
    reveal_strlit("snapshot");
    let label = if accepted_comment(input).len() == 0 {
        "snapshot"@
    } else {
        accepted_comment(input)
    };
    let name = folder_name(stamp, accepted_comment(input));
    assert(name =~= stamp + seq!['-'] + label);
    assert forall|i: int| 0 <= i < label.len() implies is_alphanumeric(#[trigger] label[i]) by {
        if accepted_comment(input).len() == 0 {
        } else {
            assert(is_label(trimmed(input)));
        }
    }
    assert forall|i: int| 0 <= i < name.len() implies is_alphanumeric(#[trigger] name[i])
        || is_name_stamp_char(name[i]) by {
        if i < stamp.len() {
            assert(name[i] == stamp[i]);
        } else if i == stamp.len() {
            assert(name[i] == '-');
        } else {
            assert(name[i] == label[i - stamp.len() - 1]);
        }
    }
}

/// A snapshot's name holds the label that the user typed where that is a
/// label, and `snapshot` where it is not or nothing was typed.
pub proof fn lemma_folder_name_holds_label(stamp: Seq<char>, input: Seq<char>)
    ensures
        is_label(trimmed(input)) ==> folder_name(stamp, accepted_comment(input)) == stamp
            + seq!['-'] + trimmed(input),
        !is_label(trimmed(input)) ==> folder_name(stamp, accepted_comment(input)) == stamp
            + seq!['-'] + "snapshot"@,
{
}

} // verus!
