//! Choosing files and drawing the tree, over a listing of the project tree.
//!
//! The listing is made by whoever walks the file system: one entry per file
//! and directory, each directory before what it holds. Nothing here touches
//! the file system.

use crate::models::{file_views, opt_text, FileInfo, FileView};
use crate::pattern::{is_in_patterns, matches_any, sources, Pattern};
use crate::text::{
    chars_of, join, lacks, lemma_split_first, lemma_split_pieces, replace, replace_char, rows,
    same_text, split, split_on, string_of,
};
use vstd::prelude::*;
use vstd::string::StringExecFns;

verus! {

/// One file or directory of a walked tree.
#[derive(Clone, Debug)]
pub struct WalkedEntry {
    /// The entry's path, as the walk gave it.
    pub path: String,
    /// The path below the root, where the entry lies below the root.
    pub relative: Option<String>,
    /// The last segment of the path.
    pub file_name: String,
    /// How many directories lie between the root and the entry; the root
    /// itself has depth 0.
    pub depth: usize,
    /// Whether the entry is a regular file.
    pub is_file: bool,
}

/// An entry as plain values.
pub struct EntryView {
    pub path: Seq<char>,
    pub relative: Option<Seq<char>>,
    pub file_name: Seq<char>,
    pub depth: nat,
    pub is_file: bool,
}

impl View for WalkedEntry {
    type V = EntryView;

    open spec fn view(&self) -> EntryView {
        EntryView {
            path: self.path@,
            relative: match self.relative {
                Some(r) => Some(r@),
                None => None,
            },
            file_name: self.file_name@,
            depth: self.depth as nat,
            is_file: self.is_file,
        }
    }
}

/// The view of each entry.
pub open spec fn entry_views(entries: Seq<WalkedEntry>) -> Seq<EntryView> {
    Seq::new(entries.len(), |i: int| entries[i]@)
}

/// The segments of a name: its pieces between the `/`.
pub open spec fn segments(name: Seq<char>) -> Seq<Seq<char>> {
    split_on(name, '/')
}

/// Segment `i` is `target` and the next one is `backup`.
pub open spec fn is_backup_at(segs: Seq<Seq<char>>, i: int) -> bool {
    &&& 0 <= i
    &&& i + 1 < segs.len()
    &&& segs[i] == "target"@
    &&& segs[i + 1] == "backup"@
}

/// The name an entry goes by: its path below the root, or its whole path where
/// it does not lie below the root, with `/` between the segments.
pub open spec fn display_name(e: EntryView) -> Seq<char> {
    replace_char(
        match e.relative {
            Some(r) => r,
            None => e.path,
        },
        '\\',
        '/',
    )
}

/// The name leads into the backup directory: two of its segments, one after
/// the other, are `target` and `backup`. What lies there is never collected
/// and never drawn, so that no snapshot comes to hold another. A name that
/// only holds those letters, as `mytarget/backups` does, is not meant.
pub open spec fn in_backup(name: Seq<char>) -> bool {
    exists|i: int| is_backup_at(segments(name), i)
}

/// A file of this name is collected: it is not in the backup directory, at
/// least one include pattern matches it, and no exclude pattern does.
pub open spec fn is_selected(
    name: Seq<char>,
    includes: Seq<Seq<char>>,
    excludes: Seq<Seq<char>>,
) -> bool {
    &&& !in_backup(name)
    &&& matches_any(name, includes)
    &&& !matches_any(name, excludes)
}

/// The entry is a file that is collected.
pub open spec fn selects(e: EntryView, includes: Seq<Seq<char>>, excludes: Seq<Seq<char>>) -> bool {
    e.is_file && is_selected(display_name(e), includes, excludes)
}

/// The indices of the entries that are collected, in the order of the listing.
pub open spec fn selection(
    entries: Seq<EntryView>,
    includes: Seq<Seq<char>>,
    excludes: Seq<Seq<char>>,
) -> Seq<int>
    decreases entries.len(),
{
    if entries.len() == 0 {
        Seq::<int>::empty()
    } else {
        let before = selection(entries.drop_last(), includes, excludes);
        if selects(entries.last(), includes, excludes) {
            before.push(entries.len() - 1)
        } else {
            before
        }
    }
}

/// The indices as integers.
pub open spec fn indices(v: Seq<usize>) -> Seq<int> {
    Seq::new(v.len(), |k: int| v[k] as int)
}

/// The name an entry goes by.
pub fn relative_name(entry: &WalkedEntry) -> (name: String)
    ensures
        name@ == display_name(entry@),
{
    let raw = match &entry.relative {
        Some(r) => chars_of(r.as_str()),
        None => chars_of(entry.path.as_str()),
    };
    let clean = replace(&raw, '\\', '/');
    string_of(&clean)
}

/// Whether `name` leads into the backup directory.
pub fn is_in_backup(name: &str) -> (b: bool)
    ensures
        b == in_backup(name@),
{
    let chars = chars_of(name);
    let segs = split(&chars, '/');
    let target = chars_of("target");
    let backup = chars_of("backup");
    proof {
        lemma_split_pieces(name@, '/');
    }
    let last: usize = segs.len() - 1;
    let mut i: usize = 0;
    while i < last
        invariant
            i <= last,
            last + 1 == segs.len(),
            rows(segs@) == segments(name@),
            target@ == "target"@,
            backup@ == "backup"@,
            forall|j: int| 0 <= j < i ==> !is_backup_at(segments(name@), j),
        decreases last - i,
    {
        if same_text(&segs[i], &target) && same_text(&segs[i + 1], &backup) {
            assert(is_backup_at(segments(name@), i as int));
            return true;
        }
        i += 1;
    }
    false
}

/// Whether the entry is a file that is collected.
pub fn is_target_file(entry: &WalkedEntry, includes: &[Pattern], excludes: &[Pattern]) -> (b: bool)
    ensures
        b == selects(entry@, sources(includes@), sources(excludes@)),
{
    if !entry.is_file {
        return false;
    }
    let name = relative_name(entry);
    if is_in_backup(name.as_str()) {
        return false;
    }
    is_in_patterns(name.as_str(), includes) && !is_in_patterns(name.as_str(), excludes)
}

/// The entries that are collected, by their indices in the listing, in its
/// order.
pub fn select_target_files(
    entries: &[WalkedEntry],
    includes: &[Pattern],
    excludes: &[Pattern],
) -> (picked: Vec<usize>)
    ensures
        indices(picked@) == selection(
            entry_views(entries@),
            sources(includes@),
            sources(excludes@),
        ),
{
    let ghost all = entry_views(entries@);
    let ghost inc = sources(includes@);
    let ghost exc = sources(excludes@);
    let mut picked: Vec<usize> = Vec::new();
    let mut i: usize = 0;
    assert(all.take(0) =~= Seq::<EntryView>::empty());
    assert(indices(picked@) =~= Seq::<int>::empty());
    while i < entries.len()
        invariant
            i <= entries.len(),
            all == entry_views(entries@),
            inc == sources(includes@),
            exc == sources(excludes@),
            indices(picked@) == selection(all.take(i as int), inc, exc),
        decreases entries.len() - i,
    {
        proof {
            assert(all.take(i + 1).drop_last() =~= all.take(i as int));
            assert(all.take(i + 1).last() == entries@[i as int]@);
        }
        if is_target_file(&entries[i], includes, excludes) {
            assert(indices(picked@.push(i)) =~= indices(picked@).push(i as int));
            picked.push(i);
        }
        i += 1;
    }
    assert(all.take(entries.len() as int) =~= all);
    picked
}

/// The message for a file that could not be read: the cause, and the file's
/// name in brackets.
pub open spec fn read_failure(cause: Seq<char>, name: Seq<char>) -> Seq<char> {
    "ファイル読み込みに失敗: "@ + cause + " ("@ + name + ")"@
}

/// Every read succeeded.
pub open spec fn all_read(contents: Seq<Result<String, String>>) -> bool {
    forall|k: int| 0 <= k < contents.len() ==> contents[k] is Ok
}

/// Read `k` failed, and none before it.
pub open spec fn is_first_failure(contents: Seq<Result<String, String>>, k: int) -> bool {
    &&& 0 <= k < contents.len()
    &&& contents[k] is Err
    &&& forall|j: int| 0 <= j < k ==> contents[j] is Ok
}

/// The records of the picked entries: each with its path, its name and what
/// was read from it.
pub open spec fn records(
    entries: Seq<EntryView>,
    picked: Seq<int>,
    contents: Seq<Result<String, String>>,
) -> Seq<FileView> {
    Seq::new(
        picked.len(),
        |k: int|
            FileView {
                url: entries[picked[k]].path,
                name: display_name(entries[picked[k]]),
                content: contents[k]->Ok_0@,
            },
    )
}

/// The reads belong to `count` picks: there is one for each pick, or fewer
/// where reading stopped at a failure.
pub open spec fn reads_fit(contents: Seq<Result<String, String>>, count: nat) -> bool {
    contents.len() <= count && (all_read(contents) ==> contents.len() == count)
}

/// What the collection comes to, for the picks and what reading them gave: the
/// message of the first failed read; else why the walk ended early, if it did;
/// else the records.
pub open spec fn collected(
    entries: Seq<EntryView>,
    walk_failure: Option<Seq<char>>,
    picked: Seq<int>,
    contents: Seq<Result<String, String>>,
    r: Result<Vec<FileInfo>, String>,
) -> bool {
    &&& forall|k: int|
        is_first_failure(contents, k) ==> (r matches Err(msg) && msg@ == read_failure(
            contents[k]->Err_0@,
            display_name(entries[picked[k]]),
        ))
    &&& all_read(contents) ==> match walk_failure {
        Some(e) => r matches Err(msg) && msg@ == e,
        None => r matches Ok(files) && file_views(files@) == records(entries, picked, contents),
    }
}

/// The message for a file that could not be read.
fn read_failure_message(cause: &str, name: &str) -> (msg: String)
    ensures
        msg@ == read_failure(cause@, name@),
{
    let mut msg = String::new();
    msg.append("ファイル読み込みに失敗: ");
    msg.append(cause);
    msg.append(" (");
    msg.append(name);
    msg.append(")");
    assert(msg@ =~= read_failure(cause@, name@));
    msg
}

/// Makes the records of the picked entries from what was read from them.
///
/// `picked` are indices into `entries`, and `contents[k]` is what reading entry
/// `picked[k]` gave: its text, or why it could not be read. Reading may have
/// stopped at the first failure, so `contents` may be shorter than `picked`
/// where it holds a failure. `walk_failure` is why the walk ended before the
/// whole tree was listed, if it did.
///
/// The first failed read ends the collection with a message that names the
/// file. A walk that ended early does so too, after the reads, since it came
/// after them. There is no partial result.
pub fn collect_target_files(
    entries: &[WalkedEntry],
    walk_failure: &Option<String>,
    picked: &[usize],
    contents: &[Result<String, String>],
) -> (r: Result<Vec<FileInfo>, String>)
    requires
        forall|k: int| 0 <= k < picked@.len() ==> picked@[k] < entries@.len(),
        reads_fit(contents@, picked@.len()),
    ensures
        collected(
            entry_views(entries@),
            opt_text(*walk_failure),
            indices(picked@),
            contents@,
            r,
        ),
{
    let ghost wanted = records(entry_views(entries@), indices(picked@), contents@);
    let mut files: Vec<FileInfo> = Vec::new();
    let mut k: usize = 0;
    assert(file_views(files@) =~= wanted.take(0));
    while k < contents.len()
        invariant
            k <= contents.len(),
            contents@.len() <= picked@.len(),
            forall|j: int| 0 <= j < picked@.len() ==> picked@[j] < entries@.len(),
            forall|j: int| 0 <= j < k ==> contents@[j] is Ok,
            wanted == records(entry_views(entries@), indices(picked@), contents@),
            file_views(files@) == wanted.take(k as int),
        decreases contents.len() - k,
    {
        let entry = &entries[picked[k]];
        let name = relative_name(entry);
        match &contents[k] {
            Ok(text) => {
                let file = FileInfo {
                    file_url: entry.path.clone(),
                    file_name: name,
                    file_content: text.clone(),
                };
                proof {
                    assert(file@ == wanted[k as int]);
                    assert(file_views(files@.push(file)) =~= file_views(files@).push(file@));
                    assert(wanted.take(k + 1) =~= wanted.take(k as int).push(wanted[k as int]));
                }
                files.push(file);
            },
            Err(cause) => {
                assert(is_first_failure(contents@, k as int));
                assert forall|j: int| is_first_failure(contents@, j) implies j == k by {
                    if j < k {
                        assert(contents@[j] is Ok);
                    }
                }
                return Err(read_failure_message(cause.as_str(), name.as_str()));
            },
        }
        k += 1;
    }
    assert(all_read(contents@));
    assert(wanted.take(contents@.len() as int) =~= wanted);
    match walk_failure {
        Some(e) => Err(e.clone()),
        None => Ok(files),
    }
}

/// Whether every read succeeded.
fn every_read_succeeded(contents: &[Result<String, String>]) -> (b: bool)
    ensures
        b == all_read(contents@),
{
    let mut k: usize = 0;
    while k < contents.len()
        invariant
            k <= contents.len(),
            forall|j: int| 0 <= j < k ==> contents@[j] is Ok,
        decreases contents.len() - k,
    {
        if contents[k].is_err() {
            return false;
        }
        k += 1;
    }
    true
}

/// Collects the files that the patterns choose from what reading them gave:
/// `contents[k]` is what reading the `k`-th chosen file gave, in the order of
/// `select_target_files`.
///
/// This is `collect_target_files` on the picks of `select_target_files`. Where
/// the reads do not belong to those picks (there are too many, or too few
/// without a failure among them) there is no result.
pub fn collect_matching_files(
    entries: &[WalkedEntry],
    walk_failure: &Option<String>,
    includes: &[Pattern],
    excludes: &[Pattern],
    contents: &[Result<String, String>],
) -> (r: Option<Result<Vec<FileInfo>, String>>)
    ensures
        r is Some <==> reads_fit(
            contents@,
            selection(entry_views(entries@), sources(includes@), sources(excludes@)).len(),
        ),
        r matches Some(res) ==> collected(
            entry_views(entries@),
            opt_text(*walk_failure),
            selection(entry_views(entries@), sources(includes@), sources(excludes@)),
            contents@,
            res,
        ),
{
    let picked = select_target_files(entries, includes, excludes);
    let ghost sel = selection(entry_views(entries@), sources(includes@), sources(excludes@));
    if contents.len() > picked.len() {
        return None;
    }
    if contents.len() < picked.len() && every_read_succeeded(contents) {
        return None;
    }
    proof {
        lemma_selection_exact(entry_views(entries@), sources(includes@), sources(excludes@));
        assert forall|k: int| 0 <= k < picked@.len() implies picked@[k] < entries@.len() by {
            assert(sel[k] == picked@[k]);
            assert(sel.contains(sel[k]));
        }
    }
    Some(collect_target_files(entries, walk_failure, picked.as_slice(), contents))
}

/// The entry is drawn unless something prunes it: it is not in the backup
/// directory, and no exclude pattern matches its name.
pub open spec fn shown(e: EntryView, excludes: Seq<Seq<char>>) -> bool {
    !in_backup(display_name(e)) && !matches_any(display_name(e), excludes)
}

/// Entry `j` is entry `i` or lies beneath it: all the entries after `i` up to
/// `j` are deeper than `i`.
pub open spec fn within(entries: Seq<EntryView>, i: int, j: int) -> bool {
    &&& 0 <= i <= j < entries.len()
    &&& forall|k: int| i < k <= j ==> entries[k].depth > entries[i].depth
}

/// Entry `j` is pruned: it is not shown, or it lies beneath an entry that is
/// not.
pub open spec fn pruned(entries: Seq<EntryView>, excludes: Seq<Seq<char>>, j: int) -> bool {
    exists|i: int| within(entries, i, j) && !shown(#[trigger] entries[i], excludes)
}

/// Two spaces for each level of depth.
pub open spec fn indent(depth: nat) -> Seq<char> {
    Seq::new(2 * depth, |i: int| ' ')
}

/// The line that draws an entry: its name behind its indent.
pub open spec fn tree_line(e: EntryView) -> Seq<char> {
    indent(e.depth) + e.file_name
}

/// The lines that draw the first `n` entries: one for each that is not
/// pruned, in the order of the listing.
pub open spec fn tree_lines(entries: Seq<EntryView>, excludes: Seq<Seq<char>>, n: nat) -> Seq<
    Seq<char>,
>
    decreases n,
{
    if n == 0 {
        Seq::<Seq<char>>::empty()
    } else {
        let before = tree_lines(entries, excludes, (n - 1) as nat);
        if pruned(entries, excludes, n - 1) {
            before
        } else {
            before.push(tree_line(entries[n - 1]))
        }
    }
}

/// The tree as text: its lines with a line feed between each two.
pub open spec fn tree_text(entries: Seq<EntryView>, excludes: Seq<Seq<char>>) -> Seq<char> {
    join(tree_lines(entries, excludes, entries.len()), seq!['\n'])
}

/// Entry `i`, before `j`, is not shown, and all the entries between the two
/// lie beneath it.
spec fn holds_on(entries: Seq<EntryView>, excludes: Seq<Seq<char>>, i: int, j: int) -> bool {
    &&& 0 <= i < j
    &&& !shown(entries[i], excludes)
    &&& forall|k: int| i < k < j ==> entries[k].depth > entries[i].depth
}

/// Whether the entry is drawn unless something above it is pruned.
pub fn should_show(entry: &WalkedEntry, excludes: &[Pattern]) -> (b: bool)
    ensures
        b == shown(entry@, sources(excludes@)),
{
    let name = relative_name(entry);
    if is_in_backup(name.as_str()) {
        return false;
    }
    !is_in_patterns(name.as_str(), excludes)
}

/// Appends the line that draws `entry`.
fn append_tree_line(out: &mut String, entry: &WalkedEntry)
    ensures
        final(out)@ == old(out)@ + tree_line(entry@),
{
    let ghost start = out@;
    let mut level: usize = 0;
    assert(start + indent(0) =~= start);
    while level < entry.depth
        invariant
            level <= entry.depth,
            out@ == start + indent(level as nat),
        decreases entry.depth - level,
    {
        out.push(' ');
        out.push(' ');
        assert(indent(level as nat).push(' ').push(' ') =~= indent((level + 1) as nat));
        level += 1;
    }
    out.append(entry.file_name.as_str());
}

/// Draws the tree: one line for each entry, the name behind two spaces for
/// each level of depth, and the root's name alone on the first line.
///
/// An entry that is in the backup directory, or whose name an exclude pattern
/// matches, is left out with everything beneath it. There are no include
/// patterns here.
///
/// The listing holds each directory before what it holds.
pub fn build_tree_view(entries: &[WalkedEntry], excludes: &[Pattern]) -> (tree: String)
    ensures
        tree@ == tree_text(entry_views(entries@), sources(excludes@)),
{
    let ghost all = entry_views(entries@);
    let ghost exc = sources(excludes@);
    let ghost nl = seq!['\n'];
    let mut out = String::new();
    let mut nothing_drawn = true;
    let mut cut: Option<usize> = None;
    let ghost mut holder: int = 0;
    let mut j: usize = 0;
    while j < entries.len()
        invariant
            j <= entries.len(),
            all == entry_views(entries@),
            exc == sources(excludes@),
            nl == seq!['\n'],
            out@ == join(tree_lines(all, exc, j as nat), nl),
            nothing_drawn == (tree_lines(all, exc, j as nat).len() == 0),
            cut is None ==> forall|i: int| !holds_on(all, exc, i, j as int),
            cut matches Some(d) ==> holds_on(all, exc, holder, j as int) && all[holder].depth == d
                && forall|i: int| holds_on(all, exc, i, j as int) ==> all[i].depth >= d,
        decreases entries.len() - j,
    {
        let entry = &entries[j];
        assert(all[j as int] == entry@);
        let beneath = match cut {
            Some(d) => entry.depth > d,
            None => false,
        };
        let ghost before = tree_lines(all, exc, j as nat);
        let ghost next = j + 1;
        if beneath {
            proof {
                assert(within(all, holder, j as int));
                assert(pruned(all, exc, j as int));
                assert forall|i: int| holds_on(all, exc, i, next) implies all[i].depth
                    >= all[holder].depth by {
                    if i < j {
                        assert(holds_on(all, exc, i, j as int));
                    }
                }
            }
        } else {
            proof {
                assert forall|i: int| i < j implies !holds_on(all, exc, i, next) by {
                    if holds_on(all, exc, i, next) {
                        assert(holds_on(all, exc, i, j as int));
                        assert(all[j as int].depth > all[i].depth);
                    }
                }
            }
            if should_show(entry, excludes) {
                proof {
                    if pruned(all, exc, j as int) {
                        let i = choose|i: int|
                            within(all, i, j as int) && !shown(#[trigger] all[i], exc);
                        assert(holds_on(all, exc, i, next));
                    }
                    assert(before.push(tree_line(entry@)).drop_last() =~= before);
                }
                if !nothing_drawn {
                    out.push('\n');
                }
                append_tree_line(&mut out, entry);
                proof {
                    let lines = before.push(tree_line(entry@));
                    if before.len() == 0 {
                        assert(out@ =~= lines[0]);
                    } else {
                        assert(out@ =~= join(before, nl) + nl + lines.last());
                    }
                }
                nothing_drawn = false;
                cut = None;
            } else {
                proof {
                    assert(within(all, j as int, j as int));
                    assert(pruned(all, exc, j as int));
                    holder = j as int;
                }
                cut = Some(entry.depth);
            }
        }
        j += 1;
    }
    out
}

/// No line is drawn for an entry that is in the backup directory or whose
/// name an exclude pattern matches, nor for any entry beneath it, whatever that
/// entry's own name is: the lines drawn are those of the other entries, one
/// each.
pub proof fn lemma_pruning_is_inherited(
    entries: Seq<EntryView>,
    excludes: Seq<Seq<char>>,
    i: int,
    j: int,
)
    requires
        within(entries, i, j),
        !shown(entries[i], excludes),
    ensures
        pruned(entries, excludes, j),
        tree_lines(entries, excludes, (j + 1) as nat) == tree_lines(entries, excludes, j as nat),
{
}

/// What is collected are the files of the listing that are not in the backup
/// directory and whose name is matched by at least one include pattern and by
/// no exclude pattern: those, each once, in the order of the listing.
pub proof fn lemma_selection_exact(
    entries: Seq<EntryView>,
    includes: Seq<Seq<char>>,
    excludes: Seq<Seq<char>>,
)
    ensures
        forall|i: int|
            selection(entries, includes, excludes).contains(i) <==> 0 <= i < entries.len()
                && entries[i].is_file && !in_backup(display_name(entries[i])) && matches_any(
                display_name(entries[i]),
                includes,
            ) && !matches_any(display_name(entries[i]), excludes),
        forall|a: int, b: int|
            0 <= a < b < selection(entries, includes, excludes).len() ==> selection(
                entries,
                includes,
                excludes,
            )[a] < selection(entries, includes, excludes)[b],
        selection(entries, includes, excludes).len() <= entries.len(),
    decreases entries.len(),
{
    let sel = selection(entries, includes, excludes);
    if entries.len() == 0 {
    } else {
        let front = entries.drop_last();
        let before = selection(front, includes, excludes);
        let last = entries.len() - 1;
        lemma_selection_exact(front, includes, excludes);
        assert forall|i: int| sel.contains(i) <==> 0 <= i < entries.len() && selects(
            entries[i],
            includes,
            excludes,
        ) by {
            if 0 <= i < last {
                assert(front[i] == entries[i]);
            }
            if sel.contains(i) {
                let k = choose|k: int| 0 <= k < sel.len() && sel[k] == i;
                if k < before.len() {
                    assert(before[k] == i);
                    assert(before.contains(i));
                }
            }
            if 0 <= i < entries.len() && selects(entries[i], includes, excludes) {
                if i < last {
                    assert(before.contains(i));
                    let k = choose|k: int| 0 <= k < before.len() && before[k] == i;
                    assert(sel[k] == i);
                } else {
                    assert(sel[sel.len() - 1] == i);
                }
            }
        }
        assert forall|a: int, b: int| 0 <= a < b < sel.len() implies sel[a] < sel[b] by {
            if b == before.len() {
                assert(before.contains(before[a]));
            }
        }
    }
}

/// What lies in the backup directory is never collected and never drawn,
/// whatever the patterns are: a snapshot cannot come to hold another.
pub proof fn lemma_backup_is_left_out(
    e: EntryView,
    includes: Seq<Seq<char>>,
    excludes: Seq<Seq<char>>,
)
    requires
        in_backup(display_name(e)),
    ensures
        !selects(e, includes, excludes),
        !shown(e, excludes),
{
}

/// What lies in a snapshot directory, `target/backup/...` below the root,
/// leads into the backup directory.
pub proof fn lemma_snapshot_is_in_backup(rest: Seq<char>)
    ensures
        in_backup("target"@ + seq!['/'] + "backup"@ + seq!['/'] + rest),
{
    reveal_strlit("target");
    reveal_strlit("backup");
    let target = "target"@;
    let backup = "backup"@;
    let name = target + seq!['/'] + backup + seq!['/'] + rest;
    assert(lacks(target, '/'));
    assert(lacks(backup, '/'));
    assert(name =~= target + seq!['/'] + (backup + seq!['/'] + rest));
    lemma_split_first(target, '/', backup + seq!['/'] + rest);
    lemma_split_first(backup, '/', rest);
    lemma_split_pieces(rest, '/');
    let segs = segments(name);
    assert(segs[0] == target);
    assert(segs[1] == backup);
    assert(is_backup_at(segs, 0));
}

/// Without include patterns nothing is collected, whatever the exclude
/// patterns are.
pub proof fn lemma_no_includes_no_selection(entries: Seq<EntryView>, excludes: Seq<Seq<char>>)
    ensures
        selection(entries, Seq::<Seq<char>>::empty(), excludes) == Seq::<int>::empty(),
    decreases entries.len(),
{
    if entries.len() > 0 {
        lemma_no_includes_no_selection(entries.drop_last(), excludes);
    }
}

} // verus!
