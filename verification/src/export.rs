//! Writing a collection run out as text: cutting large output into chunks of
//! bounded size, and the names and framing of what is written.

use crate::clock::{is_file_stamp, is_header_stamp, lemma_formats_differ, local_time_texts};
use crate::models::{file_views, lemma_texts_push, opt_str, texts, FileInfo, FileView};
use crate::text::{concat, decimal, push_decimal};
use vstd::string::StringExecFns;
use vstd::prelude::*;
use vstd::utf8::{
    decode_utf8, decode_utf8_split, encode_utf8, encode_utf8_decode_utf8, encode_utf8_valid_utf8,
    is_char_boundary, is_char_boundary_iff_not_is_continuation_byte,
    is_char_boundary_start_end_of_seq, valid_utf8, valid_utf8_split,
};

verus! {

/// What `String::from_utf8_lossy` makes of bytes that are not valid UTF-8.
pub uninterp spec fn utf8_lossy(bytes: Seq<u8>) -> Seq<char>;

/// The text that `bytes` stand for: the text they encode where they are valid
/// UTF-8, and else that text with a replacement for each broken part.
pub open spec fn lossy_text(bytes: Seq<u8>) -> Seq<char> {
    if valid_utf8(bytes) {
        decode_utf8(bytes)
    } else {
        utf8_lossy(bytes)
    }
}

/// `String::from_utf8_lossy`, made into an owned string. Valid UTF-8 comes
/// back as the text it encodes; of other bytes only this is claimed, that the
/// same bytes give the same text.
#[verifier::external_body]
fn string_from_utf8_lossy(bytes: &[u8]) -> (s: String)
    ensures
        valid_utf8(bytes@) ==> s@ == decode_utf8(bytes@),
        !valid_utf8(bytes@) ==> s@ == utf8_lossy(bytes@),
{
    String::from_utf8_lossy(bytes).into_owned()
}

/// How many chunks of at most `size` bytes `len` bytes make: `len / size`,
/// rounded up.
pub open spec fn chunk_count(len: nat, size: nat) -> nat {
    if size == 0 {
        0
    } else {
        ((len + size - 1) / (size as int)) as nat
    }
}

/// Where chunk `i` ends.
pub open spec fn chunk_end(len: nat, size: nat, i: int) -> int {
    if (i + 1) * size < len {
        (i + 1) * size
    } else {
        len as int
    }
}

/// The bytes of chunk `i`: those from `i * size` up to `(i + 1) * size`, or up
/// to the end if that comes first.
pub open spec fn chunk_bytes(bytes: Seq<u8>, size: nat, i: int) -> Seq<u8> {
    bytes.subrange(chunk_start(size, i), chunk_end(bytes.len(), size, i))
}

/// The chunks of `bytes`, each as text.
pub open spec fn chunk_texts(bytes: Seq<u8>, size: nat) -> Seq<Seq<char>> {
    Seq::new(chunk_count(bytes.len(), size), |i: int| lossy_text(chunk_bytes(bytes, size, i)))
}

/// The message for a chunk size of zero.
pub open spec fn zero_size_message() -> Seq<char> {
    "チャンクサイズが0です。"@
}

/// `count` chunks cover `len` bytes when the last one begins before the end
/// and ends at or after it.
proof fn lemma_chunk_count(len: nat, size: nat, count: nat)
    by (nonlinear_arith)
    requires
        size > 0,
        count * size >= len,
        count > 0 ==> (count - 1) * size < len,
    ensures
        chunk_count(len, size) == count,
{
    if count == 0 {
        assert(len == 0);
        assert((size - 1) / (size as int) == 0);
    } else {
        let q = (len + size - 1) / (size as int);
        assert(q * size <= len + size - 1 < (q + 1) * size);
        if q < count {
            assert((q + 1) * size <= count * size);
            assert(q + 1 <= count - 1 || q + 1 == count);
            if q + 1 <= count - 1 {
                assert((q + 1) * size <= (count - 1) * size);
            }
        }
        if q > count {
            assert(q * size >= (count + 1) * size);
        }
    }
}

/// The chunks before chunk `i` end where chunk `i` begins.
proof fn lemma_chunk_start(len: nat, size: nat, i: int)
    by (nonlinear_arith)
    requires
        size > 0,
        0 <= i < chunk_count(len, size),
    ensures
        0 <= i * size < len,
        i * size < chunk_end(len, size, i) <= len,
        i > 0 ==> chunk_end(len, size, i - 1) == i * size,
        i + 1 == chunk_count(len, size) <==> chunk_end(len, size, i) == len,
{
    let q = (len + size - 1) / (size as int);
    assert(q * size <= len + size - 1 < (q + 1) * size);
    assert((i + 1) * size <= q * size);
    if i + 1 < q {
        assert((i + 2) * size <= q * size);
    }
}

/// Cuts `text` into chunks of `chunk_size` bytes; the last chunk may be
/// shorter. The cuts fall at byte offsets, whatever character they fall in: a
/// chunk whose ends split no character is that piece of the text, and any
/// other chunk has a replacement for each broken character.
pub fn split_into_chunks(text: &str, chunk_size: usize) -> (r: Result<Vec<String>, String>)
    ensures
        r is Err <==> chunk_size == 0,
        r matches Err(msg) ==> msg@ == zero_size_message(),
        r matches Ok(chunks) ==> {
            &&& chunks.len() == chunk_count(encode_utf8(text@).len(), chunk_size as nat)
            &&& texts(chunks@) == chunk_texts(encode_utf8(text@), chunk_size as nat)
        },
{
    if chunk_size == 0 {
        return Err("チャンクサイズが0です。".to_string());
    }
    let bytes = text.as_bytes();
    let n: usize = bytes.len();
    let ghost size = chunk_size as nat;
    let ghost all = chunk_texts(bytes@, size);
    let mut chunks: Vec<String> = Vec::new();
    let mut start: usize = 0;
    assert(texts(chunks@) =~= all.take(0)) by {
        lemma_chunk_count(0, size, 0);
    }
    while start < n
        invariant
            chunk_size > 0,
            size == chunk_size,
            n == bytes@.len(),
            all == chunk_texts(bytes@, size),
            start <= n,
            start < n ==> start == chunks.len() * size,
            chunks.len() * size >= start,
            chunks.len() > 0 ==> (chunks.len() - 1) * size < n,
            chunks.len() <= all.len(),
            texts(chunks@) == all.take(chunks.len() as int),
        decreases n - start,
    {
        let end: usize = if chunk_size < n - start {
            start + chunk_size
        } else {
            n
        };
        let ghost k = chunks.len() as int;
        proof {
            assert((k + 1) * size == k * size + size) by (nonlinear_arith);
            if k >= all.len() {
                assert(k * size >= all.len() * size) by (nonlinear_arith)
                    requires
                        k >= all.len(),
                        size > 0,
                ;
                lemma_chunk_count_covers(n as nat, size);
            }
            assert(chunk_end(n as nat, size, k) == end);
        }
        let piece = string_from_utf8_lossy(&bytes[start..end]);
        proof {
            assert(all[k] == piece@);
            lemma_texts_push(chunks@, piece);
            assert(all.take(k + 1) =~= all.take(k).push(all[k]));
        }
        chunks.push(piece);
        start = end;
    }
    proof {
        lemma_chunk_count(n as nat, size, chunks.len() as nat);
        assert(all.take(all.len() as int) =~= all);
    }
    Ok(chunks)
}

/// Chunks of `size` bytes, as many as `chunk_count` says, cover `len` bytes.
proof fn lemma_chunk_count_covers(len: nat, size: nat)
    by (nonlinear_arith)
    requires
        size > 0,
    ensures
        chunk_count(len, size) * size >= len,
{
    let q = (len + size - 1) / (size as int);
    assert(q * size <= len + size - 1 < (q + 1) * size);
}

/// Where chunk `i` begins.
pub open spec fn chunk_start(size: nat, i: int) -> int {
    i * size
}

/// No cut between two chunks falls inside a character.
pub open spec fn cuts_between_chars(bytes: Seq<u8>, size: nat) -> bool {
    forall|i: int|
        0 < i < chunk_count(bytes.len(), size) ==> is_char_boundary(
            bytes,
            #[trigger] chunk_start(size, i),
        )
}

/// A character boundary of a text is one of each piece that begins with the
/// text and ends at a boundary after it.
proof fn lemma_boundary_in_front(bytes: Seq<u8>, end: int, i: int)
    requires
        valid_utf8(bytes),
        is_char_boundary(bytes, end),
        is_char_boundary(bytes, i),
        i <= end,
    ensures
        0 <= i <= end <= bytes.len(),
        valid_utf8(bytes.subrange(0, end)),
        is_char_boundary(bytes.subrange(0, end), i),
{
    let front = bytes.subrange(0, end);
    valid_utf8_split(bytes, end);
    if i == end {
        is_char_boundary_start_end_of_seq(front);
    } else if i > 0 {
        is_char_boundary_iff_not_is_continuation_byte(bytes, i);
        is_char_boundary_iff_not_is_continuation_byte(front, i);
        assert(front[i] == bytes[i]);
    }
}

/// A chunk whose two ends split no character is the piece of the text between
/// them, and it follows the text before it.
pub proof fn lemma_chunk_between_chars(text: Seq<char>, size: nat, i: int)
    requires
        size > 0,
        0 <= i < chunk_count(encode_utf8(text).len(), size),
        is_char_boundary(encode_utf8(text), chunk_start(size, i)),
        is_char_boundary(encode_utf8(text), chunk_end(encode_utf8(text).len(), size, i)),
    ensures
        valid_utf8(chunk_bytes(encode_utf8(text), size, i)),
        chunk_texts(encode_utf8(text), size)[i] == decode_utf8(
            chunk_bytes(encode_utf8(text), size, i),
        ),
        decode_utf8(encode_utf8(text).subrange(0, chunk_end(encode_utf8(text).len(), size, i)))
            == decode_utf8(encode_utf8(text).subrange(0, chunk_start(size, i))) + chunk_texts(
            encode_utf8(text),
            size,
        )[i],
{
    let bytes = encode_utf8(text);
    let from = chunk_start(size, i);
    let to = chunk_end(bytes.len(), size, i);
    encode_utf8_valid_utf8(text);
    lemma_chunk_start(bytes.len(), size, i);
    lemma_boundary_in_front(bytes, to, from);
    let front = bytes.subrange(0, to);
    valid_utf8_split(front, from);
    decode_utf8_split(front, from);
    assert(front.subrange(0, from) =~= bytes.subrange(0, from));
    assert(front.subrange(from, front.len() as int) =~= chunk_bytes(bytes, size, i));
}

/// The first `k` chunks, joined, are the text up to the end of the last of
/// them, where no cut falls inside a character.
proof fn lemma_chunks_rejoin_front(text: Seq<char>, size: nat, k: int)
    requires
        size > 0,
        cuts_between_chars(encode_utf8(text), size),
        0 <= k <= chunk_count(encode_utf8(text).len(), size),
    ensures
        concat(chunk_texts(encode_utf8(text), size).take(k)) == decode_utf8(
            encode_utf8(text).subrange(
                0,
                if k == 0 {
                    0
                } else {
                    chunk_end(encode_utf8(text).len(), size, k - 1)
                },
            ),
        ),
    decreases k,
{
    let bytes = encode_utf8(text);
    let all = chunk_texts(bytes, size);
    encode_utf8_valid_utf8(text);
    if k == 0 {
        assert(all.take(0) =~= Seq::<Seq<char>>::empty());
        assert(bytes.subrange(0, 0) =~= Seq::<u8>::empty());
        assert(valid_utf8(Seq::<u8>::empty()));
        assert(decode_utf8(Seq::<u8>::empty()) =~= Seq::<char>::empty());
    } else {
        let i = k - 1;
        lemma_chunks_rejoin_front(text, size, i);
        lemma_chunk_start(bytes.len(), size, i);
        assert(is_char_boundary(bytes, chunk_start(size, i)));
        assert(is_char_boundary(bytes, chunk_end(bytes.len(), size, i))) by {
            if i + 1 < chunk_count(bytes.len(), size) {
                lemma_chunk_start(bytes.len(), size, i + 1);
                assert(is_char_boundary(bytes, chunk_start(size, i + 1)));
            } else {
                is_char_boundary_start_end_of_seq(bytes);
            }
        }
        lemma_chunk_between_chars(text, size, i);
        assert(all.take(k).drop_last() =~= all.take(i));
        assert(all.take(k).last() == all[i]);
        assert(concat(all.take(k)) == concat(all.take(i)) + all[i]);
        if i == 0 {
            assert(chunk_start(size, i) == 0);
        } else {
            assert(chunk_end(bytes.len(), size, i - 1) == chunk_start(size, i));
        }
    }
}

/// The chunks of a text, joined, are the text again, where no cut falls inside
/// a character.
pub proof fn lemma_chunks_rejoin(text: Seq<char>, size: nat)
    requires
        size > 0,
        cuts_between_chars(encode_utf8(text), size),
    ensures
        concat(chunk_texts(encode_utf8(text), size)) == text,
{
    let bytes = encode_utf8(text);
    let all = chunk_texts(bytes, size);
    let count = chunk_count(bytes.len(), size) as int;
    lemma_chunks_rejoin_front(text, size, count);
    assert(all.take(count) =~= all);
    encode_utf8_decode_utf8(text);
    if count == 0 {
        lemma_chunk_count_covers(bytes.len(), size);
        assert(0 * size == 0);
        assert(bytes.len() == 0);
        assert(bytes.subrange(0, 0) =~= bytes);
    } else {
        lemma_chunk_start(bytes.len(), size, count - 1);
        assert(bytes.subrange(0, bytes.len() as int) =~= bytes);
    }
}

/// The size in bytes above which output is offered in chunks, and the size of
/// those chunks.
pub const CHUNK_LIMIT: usize = 50_000;

/// How output is written.
#[derive(Clone, Copy, Debug, PartialEq, Eq, Structural)]
pub enum ExportAction {
    /// One file that holds all of it.
    WriteWhole,
    /// One file for each chunk.
    WriteChunks,
    /// Nothing is written.
    Nothing,
}

/// Whether output of `size` bytes is large enough for the user to be asked
/// whether it is to be cut into chunks.
pub fn needs_split_choice(size: usize) -> (b: bool)
    ensures
        b == (size > CHUNK_LIMIT),
{
    size > CHUNK_LIMIT
}

/// How output of `size` bytes is written. Large output is written as the user
/// chose: `Some(0)` is for chunks and `Some(1)` for one file; with any other
/// answer, and with none, nothing is written. Other output goes into one file,
/// and the answer does not count.
pub fn export_action(size: usize, answer: Option<i32>) -> (action: ExportAction)
    ensures
        action == if size <= CHUNK_LIMIT {
            ExportAction::WriteWhole
        } else if answer == Some(0i32) {
            ExportAction::WriteChunks
        } else if answer == Some(1i32) {
            ExportAction::WriteWhole
        } else {
            ExportAction::Nothing
        },
{
    if size <= CHUNK_LIMIT {
        return ExportAction::WriteWhole;
    }
    match answer {
        Some(n) => {
            if n == 0 {
                ExportAction::WriteChunks
            } else if n == 1 {
                ExportAction::WriteWhole
            } else {
                ExportAction::Nothing
            }
        },
        None => ExportAction::Nothing,
    }
}

/// Whether the folder that an export went to is remembered, and the settings
/// written with it: only where something was written. An export that the user
/// gave up leaves everything as it was.
pub fn remembers_output_path(action: ExportAction) -> (b: bool)
    ensures
        b == (action != ExportAction::Nothing),
{
    match action {
        ExportAction::WriteWhole => true,
        ExportAction::WriteChunks => true,
        ExportAction::Nothing => false,
    }
}

/// The header line of an exported file: the project's name and the time.
pub open spec fn header_line(project: Seq<char>, date: Seq<char>) -> Seq<char> {
    "// Project: "@ + project + ", Date: "@ + date + seq!['\n']
}

/// An exported file: the note under its heading, an empty line, the header
/// line, the output itself, and the closing line.
pub open spec fn framed(
    note: Seq<char>,
    project: Seq<char>,
    date: Seq<char>,
    body: Seq<char>,
) -> Seq<char> {
    "// LLM補足:\n"@ + note + seq!['\n', '\n'] + header_line(project, date) + body
        + "\n// End of chunk.\n"@
}

/// The name that a project goes by in the header: its own, or `NoProject`.
pub fn project_label(folder_name: Option<&str>) -> (label: String)
    ensures
        label@ == match folder_name {
            Some(name) => name@,
            None => "NoProject"@,
        },
{
    match folder_name {
        Some(name) => name.to_string(),
        None => "NoProject".to_string(),
    }
}

/// Puts the output between the header and the closing line.
pub fn export_text(note: &str, project: &str, date: &str, body: &str) -> (text: String)
    ensures
        text@ == framed(note@, project@, date@, body@),
{
    let mut text = String::new();
    text.append("// LLM補足:\n");
    text.append(note);
    text.push('\n');
    text.push('\n');
    text.append("// Project: ");
    text.append(project);
    text.append(", Date: ");
    text.append(date);
    text.push('\n');
    text.append(body);
    text.append("\n// End of chunk.\n");
    assert(text@ =~= framed(note@, project@, date@, body@));
    text
}

/// The name offered for an exported file: the project folder's name, or
/// `output` where there is no project, then the time.
pub open spec fn export_name(folder: Option<Seq<char>>, stamp: Seq<char>) -> Seq<char> {
    (match folder {
        Some(name) => name,
        None => "output"@,
    }) + seq!['_'] + stamp + ".txt"@
}

/// The name offered for an exported file.
pub fn default_export_file_name(folder_name: Option<&str>, stamp: &str) -> (name: String)
    ensures
        name@ == export_name(
            opt_str(folder_name),
            stamp@,
        ),
{
    let mut name = String::new();
    match folder_name {
        Some(f) => name.append(f),
        None => name.append("output"),
    }
    name.push('_');
    name.append(stamp);
    name.append(".txt");
    assert(name@ =~= export_name(
        opt_str(folder_name),
        stamp@,
    ));
    name
}

/// The name of the file of chunk `number`, counted from one:
/// `<stem>_chunk_<number>.<ext>`.
pub open spec fn chunk_name(stem: Seq<char>, number: nat, ext: Seq<char>) -> Seq<char> {
    stem + "_chunk_"@ + decimal(number) + seq!['.'] + ext
}

/// The name of the file of chunk `number`, counted from one.
pub fn chunk_file_name(stem: &str, number: usize, ext: &str) -> (name: String)
    ensures
        name@ == chunk_name(stem@, number as nat, ext@),
{
    let mut name = String::new();
    name.append(stem);
    name.append("_chunk_");
    push_decimal(&mut name, number);
    name.push('.');
    name.append(ext);
    assert(name@ =~= chunk_name(stem@, number as nat, ext@));
    name
}

/// The text that shows one file: a line with its name, its content, and a
/// rule.
pub open spec fn file_block(f: FileView) -> Seq<char> {
    "File: "@ + f.name + seq!['\n'] + f.content + "\n--------------------------------\n"@
}

/// The text that shows the files one after another.
pub open spec fn file_blocks(files: Seq<FileView>) -> Seq<char>
    decreases files.len(),
{
    if files.len() == 0 {
        Seq::<char>::empty()
    } else {
        file_blocks(files.drop_last()) + file_block(files.last())
    }
}

/// The collected files as one text, each under its name.
pub fn combined_text(files: &[FileInfo]) -> (text: String)
    ensures
        text@ == file_blocks(file_views(files@)),
{
    let ghost all = file_views(files@);
    let mut text = String::new();
    let mut i: usize = 0;
    assert(all.take(0) =~= Seq::<FileView>::empty());
    while i < files.len()
        invariant
            i <= files.len(),
            all == file_views(files@),
            text@ == file_blocks(all.take(i as int)),
        decreases files.len() - i,
    {
        let ghost before = text@;
        let file = &files[i];
        text.append("File: ");
        text.append(file.file_name.as_str());
        text.push('\n');
        text.append(file.file_content.as_str());
        text.append("\n--------------------------------\n");
        proof {
            assert(all.take(i + 1).drop_last() =~= all.take(i as int));
            assert(all.take(i + 1).last() == file@);
            assert(text@ =~= before + file_block(file@));
        }
        i += 1;
    }
    assert(all.take(files.len() as int) =~= all);
    text
}

/// What an export begins with: the name offered for the file, and the time as
/// the header shows it.
#[derive(Debug)]
pub struct ExportStart {
    pub file_name: String,
    pub date: String,
}

/// Reads the clock for an export, once, so that the file's name and its header
/// tell the same moment, and makes the name offered for the file. What the
/// time is, is not for this function to say: the name is `export_name` of
/// some time written as `<year>mmdd_HHMMSS`, and the date is a time written
/// as `<year>-mm-dd HH:MM:SS`.
pub fn begin_export(folder_name: Option<&str>) -> (start: ExportStart)
    ensures
        exists|stamp: Seq<char>|
            is_file_stamp(stamp) && start.file_name@ == #[trigger] export_name(
                opt_str(folder_name),
                stamp,
            ),
        is_header_stamp(start.date@),
{
    let formats: [&str; 2] = ["%Y%m%d_%H%M%S", "%Y-%m-%d %H:%M:%S"];
    let stamps = local_time_texts(formats.as_slice());
    let file_name = default_export_file_name(folder_name, stamps[0].as_str());
    proof {
        lemma_formats_differ();
    }
    assert(is_file_stamp(stamps@[0]@));
    assert(is_header_stamp(stamps@[1]@));
    assert(file_name@ == export_name(
        opt_str(folder_name),
        stamps@[0]@,
    ));
    ExportStart { file_name, date: stamps[1].clone() }
}

} // verus!
