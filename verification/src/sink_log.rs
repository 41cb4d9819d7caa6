//! The commit log of a streaming file sink.
//!
//! Each committed micro-batch has one metadata file, which lists the files that the batch added.
//! Readers trust only files that the log lists, so what a crashed batch left behind stays
//! invisible. Writing the metadata file is the commit. At regular intervals a metadata file holds
//! the whole live set, so that readers need not go back further.

use vstd::prelude::*;

use crate::checkpoint::{child_path, leaf_name, path_below};
use crate::sorting::{sort, sorted, stable_sorted, Ranked};
use crate::text;
use crate::text::{
    decimal, has_suffix, last_position, law_last_position_is_the_last, parse_unsigned, split_on, texts,
};

verus! {

/// The directory of the commit log below the output path.
pub const METADATA_DIR: &'static str = "_spark_metadata";

/// The first line of a metadata file.
pub const VERSION_LINE: &'static str = "v1";

/// Every so many batches the metadata file holds the whole live set.
pub const COMPACT_INTERVAL: u64 = 10;

/// An output file as the log records it.
#[derive(Debug)]
pub struct SinkFileStatus {
    /// The path in the object store.
    pub path: String,
    pub size: u64,
    pub is_dir: bool,
    /// In milliseconds since the epoch.
    pub modification_time: i64,
    pub block_replication: i32,
    pub block_size: i64,
    /// `add` or `delete`.
    pub action: String,
}

impl SinkFileStatus {
    /// The record of a file that a batch added.
    pub fn added(path: &str, size: u64, modification_time: i64) -> (status: Self)
        ensures
            status.path@ == path@,
            status.size == size,
            !status.is_dir,
            status.modification_time == modification_time,
            status.block_replication == 1,
            status.block_size == 0,
            status.action@ == "add"@,
    {
        SinkFileStatus {
            path: path.to_owned(),
            size,
            is_dir: false,
            modification_time,
            block_replication: 1,
            block_size: 0,
            action: "add".to_owned(),
        }
    }

    /// Whether the record removes a file.
    pub open spec fn deletes(self) -> bool {
        self.action@ == "delete"@
    }
}

/// The directory of the commit log.
pub fn metadata_dir(base: &str) -> (path: String)
    ensures
        path@ == child_path(base@, METADATA_DIR@),
{
    path_below(base, METADATA_DIR)
}

/// The name of a metadata file.
pub open spec fn log_name(batch_id: u64, compact: bool) -> Seq<char> {
    if compact {
        decimal(batch_id as nat) + ".compact"@
    } else {
        decimal(batch_id as nat)
    }
}

/// The path of a metadata file.
pub fn batch_file(base: &str, batch_id: u64, compact: bool) -> (path: String)
    ensures
        path@ == child_path(child_path(base@, METADATA_DIR@), log_name(batch_id, compact)),
{
    let dir = metadata_dir(base);
    let mut name = text::u64_to_text(batch_id);
    if compact {
        name.append(".compact");
    }
    path_below(dir.as_str(), name.as_str())
}

/// The directory of the data files of a batch.
pub fn batch_dir(base: &str, batch_id: u64) -> (path: String)
    ensures
        path@ == child_path(base@, decimal(batch_id as nat)),
{
    let name = text::u64_to_text(batch_id);
    path_below(base, name.as_str())
}

/// The lines behind the first line of a metadata file, each on a line of its own.
pub open spec fn log_lines(lines: Seq<Seq<char>>) -> Seq<char>
    decreases lines.len(),
{
    if lines.len() == 0 {
        VERSION_LINE@
    } else {
        log_lines(lines.drop_last()) + seq!['\n'] + lines.last()
    }
}

/// The body of a metadata file: the version line, then one encoded record per line.
pub open spec fn log_body(lines: Seq<Seq<char>>) -> Seq<char> {
    log_lines(lines).push('\n')
}

/// The body of a metadata file with the given encoded records.
pub fn encode_log(lines: &[String]) -> (body: String)
    ensures
        body@ == log_body(texts(lines@)),
{
    let ghost all = texts(lines@);
    let mut body = VERSION_LINE.to_owned();
    let mut i: usize = 0;
    assert(all.take(0) =~= Seq::<Seq<char>>::empty());
    while i < lines.len()
        invariant
            i <= lines@.len(),
            all == texts(lines@),
            body@ == log_lines(all.take(i as int)),
        decreases lines@.len() - i,
    {
        let ghost before = body@;
        assert(all.take(i + 1).drop_last() =~= all.take(i as int));
        assert(all.take(i + 1).last() == lines@[i as int]@);
        body.push('\n');
        body.append(lines[i].as_str());
        assert(body@ =~= before + seq!['\n'] + all[i as int]);
        i = i + 1;
    }
    assert(all.take(i as int) =~= all);
    body.push('\n');
    body
}

/// A line without the carriage return at its end.
pub open spec fn without_return(line: Seq<char>) -> Seq<char> {
    if line.len() > 0 && line.last() == '\r' {
        line.drop_last()
    } else {
        line
    }
}

/// Whether a line holds an encoded record: it is neither empty nor the version line.
pub open spec fn is_record_line(line: Seq<char>) -> bool {
    line.len() > 0 && line != VERSION_LINE@
}

/// The record lines among pieces that ended in a newline.
pub open spec fn record_lines(pieces: Seq<Seq<char>>) -> Seq<Seq<char>>
    decreases pieces.len(),
{
    if pieces.len() == 0 {
        Seq::empty()
    } else {
        let before = record_lines(pieces.drop_last());
        if is_record_line(without_return(pieces.last())) {
            before.push(without_return(pieces.last()))
        } else {
            before
        }
    }
}

/// The record lines of the body of a metadata file; a last line need not end in a newline.
pub open spec fn body_records(body: Seq<char>) -> Seq<Seq<char>> {
    let pieces = split_on(body, '\n');
    let before = record_lines(pieces.drop_last());
    if is_record_line(pieces.last()) {
        before.push(pieces.last())
    } else {
        before
    }
}

/// A line without the carriage return at its end.
pub fn strip_return(line: &str) -> (out: String)
    ensures
        out@ == without_return(line@),
{
    let chars = text::to_chars(line);
    let n: usize = chars.len();
    if n > 0 && chars[n - 1] == '\r' {
        assert(line@.subrange(0, n - 1) =~= line@.drop_last());
        text::from_chars(&chars, 0, n - 1)
    } else {
        line.to_owned()
    }
}

/// The lines of a metadata file that hold encoded records.
pub fn decode_log(body: &str) -> (lines: Vec<String>)
    ensures
        texts(lines@) == body_records(body@),
{
    let pieces = text::split(body, '\n');
    let ghost all = texts(pieces@);
    proof {
        text::lemma_split_join(body@, '\n');
    }
    let n: usize = pieces.len();
    assert(n == all.len());
    let mut lines: Vec<String> = Vec::new();
    let mut i: usize = 0;
    assert(all.take(0) =~= Seq::<Seq<char>>::empty());
    assert(texts(lines@) =~= Seq::<Seq<char>>::empty());
    while i < n - 1
        invariant
            1 <= n,
            n == pieces@.len(),
            i <= n - 1,
            all == texts(pieces@),
            texts(lines@) == record_lines(all.take(i as int)),
        decreases n - i,
    {
        let ghost before = texts(lines@);
        assert(all.take(i + 1).drop_last() =~= all.take(i as int));
        assert(all.take(i + 1).last() == pieces@[i as int]@);
        let line = strip_return(pieces[i].as_str());
        if !line.as_str().is_empty() && !text::str_eq(line.as_str(), VERSION_LINE) {
            let ghost view = line@;
            lines.push(line);
            assert(texts(lines@) =~= before.push(view));
        }
        i = i + 1;
    }
    assert(all.take(n - 1) =~= all.drop_last());
    assert(all.last() == pieces@[n - 1]@);
    let last = pieces[n - 1].as_str();
    if !last.is_empty() && !text::str_eq(last, VERSION_LINE) {
        let ghost before = texts(lines@);
        lines.push(last.to_owned());
        assert(texts(lines@) =~= before.push(all.last()));
    }
    lines
}

/// Whether a line can stand in a metadata file: it holds no line break and is a record line.
pub open spec fn is_log_line(line: Seq<char>) -> bool {
    is_record_line(line) && forall|i: int|
        0 <= i < line.len() ==> #[trigger] line[i] != '\n' && line[i] != '\r'
}

proof fn lemma_split_append(s: Seq<char>, line: Seq<char>)
    requires
        forall|i: int| 0 <= i < line.len() ==> #[trigger] line[i] != '\n',
    ensures
        split_on(s + seq!['\n'] + line, '\n') == split_on(s, '\n').push(line),
    decreases line.len(),
{
    let whole = s + seq!['\n'] + line;
    if line.len() == 0 {
        assert(whole.last() == '\n');
        assert(whole.drop_last() =~= s);
        assert(line =~= Seq::<char>::empty());
    } else {
        assert(whole.last() == line.last());
        assert(line[line.len() - 1] != '\n');
        assert(whole.drop_last() =~= s + seq!['\n'] + line.drop_last());
        lemma_split_append(s, line.drop_last());
        let before = split_on(s, '\n').push(line.drop_last());
        assert(before.drop_last() =~= split_on(s, '\n'));
        assert(line.drop_last().push(line.last()) =~= line);
    }
}

proof fn lemma_split_of_lines(lines: Seq<Seq<char>>)
    requires
        forall|i: int| 0 <= i < lines.len() ==> is_log_line(#[trigger] lines[i]),
    ensures
        split_on(log_lines(lines), '\n') == seq![VERSION_LINE@] + lines,
    decreases lines.len(),
{
    reveal_strlit("v1");
    if lines.len() == 0 {
        let v = VERSION_LINE@;
        reveal_with_fuel(split_on, 3);
        assert(v.drop_last().drop_last() =~= Seq::<char>::empty());
        assert(v =~= seq!['v', '1']);
        assert(split_on(v.drop_last().drop_last(), '\n') =~= seq![Seq::<char>::empty()]);
        assert(split_on(v.drop_last(), '\n') =~= seq![seq!['v']]);
        assert(v.drop_last() =~= seq!['v']);
        let b = split_on(v.drop_last(), '\n');
        assert(b.last().push('1') =~= v);
        assert(split_on(v, '\n') =~= seq![v]);
        assert(seq![v] + lines =~= seq![v]);
    } else {
        assert(is_log_line(lines[lines.len() - 1]));
        lemma_split_of_lines(lines.drop_last());
        lemma_split_append(log_lines(lines.drop_last()), lines.last());
        assert((seq![VERSION_LINE@] + lines.drop_last()).push(lines.last()) =~= seq![VERSION_LINE@]
            + lines);
    }
}

proof fn lemma_record_lines_of_log(lines: Seq<Seq<char>>)
    requires
        forall|i: int| 0 <= i < lines.len() ==> is_log_line(#[trigger] lines[i]),
    ensures
        record_lines(seq![VERSION_LINE@] + lines) == lines,
    decreases lines.len(),
{
    let all = seq![VERSION_LINE@] + lines;
    reveal_strlit("v1");
    if lines.len() == 0 {
        assert(all.drop_last() =~= Seq::<Seq<char>>::empty());
        assert(all.last() == VERSION_LINE@);
        assert(VERSION_LINE@.last() != '\r');
        assert(record_lines(all.drop_last()) =~= Seq::<Seq<char>>::empty());
        assert(record_lines(all) =~= lines);
    } else {
        lemma_record_lines_of_log(lines.drop_last());
        assert(all.drop_last() =~= seq![VERSION_LINE@] + lines.drop_last());
        let last = lines[lines.len() - 1];
        assert(is_log_line(last));
        assert(last[last.len() - 1] != '\r');
        assert(record_lines(all) =~= lines);
    }
}

/// Reading the body of a metadata file gives back the records that were written into it.
pub proof fn law_log_round_trip(lines: Seq<Seq<char>>)
    requires
        forall|i: int| 0 <= i < lines.len() ==> is_log_line(#[trigger] lines[i]),
    ensures
        body_records(log_body(lines)) == lines,
{
    let body = log_body(lines);
    lemma_split_of_lines(lines);
    assert(body.drop_last() =~= log_lines(lines));
    let pieces = split_on(body, '\n');
    assert(pieces.drop_last() =~= seq![VERSION_LINE@] + lines);
    lemma_record_lines_of_log(lines);
}

/// A metadata file of the log.
#[derive(Debug)]
pub struct LogFile {
    pub id: u64,
    pub compact: bool,
    pub path: String,
}

impl Ranked for LogFile {
    open spec fn ranks(&self, other: &Self) -> bool {
        self.id < other.id || (self.id == other.id && (other.compact || !self.compact))
    }

    proof fn lemma_total(a: &Self, b: &Self) {
    }

    proof fn lemma_transitive(a: &Self, b: &Self, c: &Self) {
    }

    fn ranked(&self, other: &Self) -> (before: bool) {
        self.id < other.id || (self.id == other.id && (other.compact || !self.compact))
    }
}

/// The suffix of the names of files that hold the whole live set.
pub const COMPACT_SUFFIX: &'static str = ".compact";

/// The batch that a metadata file name stands for, and whether the file holds the whole live set;
/// nothing for the name of another file.
pub open spec fn parse_log_name_of(name: Seq<char>) -> Option<(u64, bool)> {
    if has_suffix(name, COMPACT_SUFFIX@) {
        match parse_unsigned(name.take(name.len() - COMPACT_SUFFIX@.len()), u64::MAX as nat) {
            Some(n) => Some((n as u64, true)),
            None => None,
        }
    } else {
        match parse_unsigned(name, u64::MAX as nat) {
            Some(n) => Some((n as u64, false)),
            None => None,
        }
    }
}

/// The batch that a metadata file name stands for.
pub fn parse_log_name(name: &str) -> (parsed: Option<(u64, bool)>)
    ensures
        parsed == parse_log_name_of(name@),
{
    if text::ends_with(name, COMPACT_SUFFIX) {
        let chars = text::to_chars(name);
        let suffix = text::to_chars(COMPACT_SUFFIX);
        let keep: usize = chars.len() - suffix.len();
        let stem = text::from_chars(&chars, 0, keep);
        assert(stem@ =~= name@.take(name@.len() - COMPACT_SUFFIX@.len()));
        match text::parse_u64(stem.as_str()) {
            Some(id) => Some((id, true)),
            None => None,
        }
    } else {
        match text::parse_u64(name) {
            Some(id) => Some((id, false)),
            None => None,
        }
    }
}

/// The name of a metadata file stands for its batch.
pub proof fn law_log_name_denotes_batch(batch_id: u64, compact: bool)
    ensures
        parse_log_name_of(log_name(batch_id, compact)) == Some((batch_id, compact)),
{
    let digits = decimal(batch_id as nat);
    text::lemma_decimal_denotes(batch_id as nat);
    reveal_strlit(".compact");
    let name = log_name(batch_id, compact);
    let suffix = COMPACT_SUFFIX@;
    if compact {
        assert(name.skip(name.len() - suffix.len()) =~= suffix);
        assert(name.take(name.len() - suffix.len()) =~= digits);
    } else if has_suffix(name, suffix) {
        assert(name.skip(name.len() - suffix.len())[0] == '.');
        assert(name[name.len() - suffix.len()] == '.');
        assert(text::is_digit(name[name.len() - suffix.len()]));
    }
    assert(text::is_digit(digits[0]));
}

/// The last segment of a path.
pub open spec fn leaf_of(path: Seq<char>) -> Seq<char> {
    path.skip(last_position(path, '/') + 1)
}

/// The metadata file at a path, where it is one of a batch up to `up_to`.
pub open spec fn is_log_file(path: Seq<char>, up_to: Option<u64>, file: LogFile) -> bool {
    &&& parse_log_name_of(leaf_of(path)) == Some((file.id, file.compact))
    &&& file.path@ == path
    &&& up_to is Some ==> file.id <= up_to->0
}

/// Whether there is a metadata file of a batch up to `up_to` at a path.
pub open spec fn has_log_file(path: Seq<char>, up_to: Option<u64>) -> bool {
    match parse_log_name_of(leaf_of(path)) {
        Some((id, _)) => up_to is Some ==> id <= up_to->0,
        None => false,
    }
}

/// The newest batch whose metadata file holds the whole live set, in files in order.
pub open spec fn latest_compact(files: Seq<LogFile>) -> Option<u64>
    decreases files.len(),
{
    if files.len() == 0 {
        None
    } else if files.last().compact {
        Some(files.last().id)
    } else {
        latest_compact(files.drop_last())
    }
}

/// Whether a reader needs a metadata file, given the newest one with the whole live set.
pub open spec fn is_needed(file: LogFile, newest: Option<u64>) -> bool {
    match newest {
        Some(c) => file.id > c || (file.id == c && file.compact),
        None => true,
    }
}

/// The metadata files that a reader needs, in order.
pub open spec fn needed_files(files: Seq<LogFile>) -> Seq<LogFile> {
    files.filter(|f: LogFile| is_needed(f, latest_compact(files)))
}

/// The metadata files among objects.
pub open spec fn are_log_files(paths: Seq<Seq<char>>, up_to: Option<u64>, files: Seq<LogFile>) -> bool
    decreases paths.len(),
{
    if paths.len() == 0 {
        files.len() == 0
    } else if has_log_file(paths.last(), up_to) {
        files.len() > 0 && is_log_file(paths.last(), up_to, files.last()) && are_log_files(
            paths.drop_last(),
            up_to,
            files.drop_last(),
        )
    } else {
        are_log_files(paths.drop_last(), up_to, files)
    }
}

/// The metadata files among the objects of the log directory, of batches up to `up_to`.
pub fn list_log_files(paths: Vec<String>, up_to: Option<u64>) -> (files: Vec<LogFile>)
    ensures
        are_log_files(texts(paths@), up_to, files@),
{
    let ghost all = texts(paths@);
    let mut files: Vec<LogFile> = Vec::new();
    let mut i: usize = 0;
    assert(all.take(0) =~= Seq::<Seq<char>>::empty());
    while i < paths.len()
        invariant
            i <= paths@.len(),
            all == texts(paths@),
            are_log_files(all.take(i as int), up_to, files@),
        decreases paths@.len() - i,
    {
        let ghost before = files@;
        proof {
            assert(all.take(i + 1).drop_last() =~= all.take(i as int));
            assert(all.take(i + 1).last() == paths@[i as int]@);
        }
        let path = paths[i].as_str();
        let name = match leaf_name(path) {
            Some(name) => name,
            None => {
                assert(path@ =~= Seq::<char>::empty());
                String::new()
            },
        };
        assert(name@ =~= leaf_of(path@));
        if let Some((id, compact)) = parse_log_name(name.as_str()) {
            let wanted = match up_to {
                Some(u) => id <= u,
                None => true,
            };
            if wanted {
                files.push(LogFile { id, compact, path: paths[i].clone() });
                assert(files@.drop_last() =~= before);
            }
        }
        i = i + 1;
    }
    assert(all.take(i as int) =~= all);
    files
}

/// The metadata files that a reader needs, in the order in which it reads them: from the newest
/// one with the whole live set on, and without a delta of the same batch.
pub fn files_to_read(files: Vec<LogFile>) -> (needed: Vec<LogFile>)
    ensures
        needed@ == needed_files(stable_sorted(files@)),
{
    let ordered = sort(files);
    let ghost all = ordered@;
    let mut newest: Option<u64> = None;
    let mut i: usize = ordered.len();
    assert(all.take(i as int) =~= all);
    while i > 0 && newest.is_none()
        invariant
            i <= ordered@.len(),
            all == ordered@,
            match newest {
                Some(c) => latest_compact(all) == Some(c),
                None => latest_compact(all) == latest_compact(all.take(i as int)),
            },
        decreases i,
    {
        assert(all.take(i as int).last() == all[i - 1]);
        assert(all.take(i as int).drop_last() =~= all.take(i - 1));
        if ordered[i - 1].compact {
            newest = Some(ordered[i - 1].id);
        }
        i = i - 1;
    }
    assert(newest == latest_compact(all));
    let mut rest = ordered;
    let mut reversed: Vec<LogFile> = Vec::new();
    let ghost mut n: int = all.len() as int;
    assert(all.take(n) =~= all);
    assert(all.skip(n) =~= Seq::<LogFile>::empty());
    assert(needed_part(all.skip(n), newest) =~= reversed@.reverse());
    while rest.len() > 0
        invariant
            0 <= n <= all.len(),
            rest@ == all.take(n),
            reversed@.reverse() == needed_part(all.skip(n), newest),
        decreases rest@.len(),
    {
        let ghost before = reversed@;
        if let Some(file) = rest.pop() {
            let needed = match newest {
                Some(c) => file.id > c || (file.id == c && file.compact),
                None => true,
            };
            proof {
                n = n - 1;
                assert(rest@ =~= all.take(n));
                assert(all.skip(n) =~= seq![file] + all.skip(n + 1));
                lemma_needed_prepend(file, all.skip(n + 1), newest);
            }
            if needed {
                reversed.push(file);
                assert(reversed@.reverse() =~= seq![file] + before.reverse());
            }
        }
    }
    assert(all.skip(0) =~= all);
    let mut needed: Vec<LogFile> = Vec::new();
    let ghost want = reversed@.reverse();
    while reversed.len() > 0
        invariant
            want == needed@ + reversed@.reverse(),
        decreases reversed@.len(),
    {
        let ghost before = reversed@;
        let ghost done = needed@;
        if let Some(file) = reversed.pop() {
            needed.push(file);
            assert(needed@ + reversed@.reverse() =~= done + before.reverse());
        }
    }
    assert(needed@ =~= want);
    needed
}

spec fn needed_part(files: Seq<LogFile>, newest: Option<u64>) -> Seq<LogFile> {
    files.filter(|f: LogFile| is_needed(f, newest))
}

proof fn lemma_needed_prepend(file: LogFile, files: Seq<LogFile>, newest: Option<u64>)
    ensures
        needed_part(seq![file] + files, newest) == if is_needed(file, newest) {
            seq![file] + needed_part(files, newest)
        } else {
            needed_part(files, newest)
        },
    decreases files.len(),
{
    reveal(Seq::filter);
    let all = seq![file] + files;
    if files.len() == 0 {
        assert(all.drop_last() =~= Seq::<LogFile>::empty());
        assert(files =~= Seq::<LogFile>::empty());
        assert(needed_part(files, newest) =~= Seq::<LogFile>::empty());
        assert(all.drop_last().filter(|f: LogFile| is_needed(f, newest)) =~= Seq::<
            LogFile,
        >::empty());
        assert(needed_part(all, newest) =~= if is_needed(file, newest) {
            seq![file] + needed_part(files, newest)
        } else {
            needed_part(files, newest)
        });
    } else {
        lemma_needed_prepend(file, files.drop_last(), newest);
        assert(all.drop_last() =~= seq![file] + files.drop_last());
        assert(all.last() == files.last());
        assert(needed_part(all, newest) =~= if is_needed(file, newest) {
            seq![file] + needed_part(files, newest)
        } else {
            needed_part(files, newest)
        });
    }
}

/// Whether some record removes the file at a path.
pub open spec fn is_deleted(entries: Seq<SinkFileStatus>, path: Seq<char>) -> bool {
    exists|i: int|
        0 <= i < entries.len() && (#[trigger] entries[i]).deletes() && entries[i].path@ == path
}

/// The live set of records: those that add a file which no record removes.
pub open spec fn live_set(entries: Seq<SinkFileStatus>) -> Seq<SinkFileStatus> {
    entries.filter(|e: SinkFileStatus| !e.deletes() && !is_deleted(entries, e.path@))
}

fn path_deleted(entries: &Vec<SinkFileStatus>, path: &str) -> (found: bool)
    ensures
        found == is_deleted(entries@, path@),
{
    let mut i: usize = 0;
    while i < entries.len()
        invariant
            i <= entries@.len(),
            forall|j: int|
                0 <= j < i ==> !((#[trigger] entries@[j]).deletes() && entries@[j].path@ == path@),
        decreases entries@.len() - i,
    {
        if text::str_eq(entries[i].action.as_str(), "delete") && text::str_eq(
            entries[i].path.as_str(),
            path,
        ) {
            return true;
        }
        i = i + 1;
    }
    false
}

/// The positions of the live records among records.
pub fn live_positions(entries: &Vec<SinkFileStatus>) -> (live: Vec<usize>)
    ensures
        live@.map_values(|i: usize| entries@[i as int]) == live_set(entries@),
        forall|k: int| 0 <= k < live@.len() ==> (#[trigger] live@[k]) < entries@.len(),
{
    let mut live: Vec<usize> = Vec::new();
    let mut i: usize = 0;
    let ghost all = entries@;
    let ghost p = |e: SinkFileStatus| !e.deletes() && !is_deleted(all, e.path@);
    let ghost at = |i: usize| all[i as int];
    reveal(Seq::filter);
    assert(live@.map_values(at) =~= all.take(0).filter(p));
    while i < entries.len()
        invariant
            i <= entries@.len(),
            all == entries@,
            p == (|e: SinkFileStatus| !e.deletes() && !is_deleted(all, e.path@)),
            at == (|i: usize| all[i as int]),
            live@.map_values(at) == all.take(i as int).filter(p),
            forall|k: int| 0 <= k < live@.len() ==> (#[trigger] live@[k]) < i,
        decreases entries@.len() - i,
    {
        reveal(Seq::filter);
        let ghost before = live@.map_values(at);
        assert(all.take(i + 1).drop_last() =~= all.take(i as int));
        assert(all.take(i + 1).last() == all[i as int]);
        if !text::str_eq(entries[i].action.as_str(), "delete") && !path_deleted(
            entries,
            entries[i].path.as_str(),
        ) {
            live.push(i);
            assert(live@.map_values(at) =~= before.push(all[i as int]));
        }
        i = i + 1;
    }
    assert(all.take(i as int) =~= all);
    live
}

/// The files that a reader sees, by the records of a commit log, with the times at which they were
/// modified; nothing where the output path has no commit log.
pub fn committed_with_mtime(logged: bool, entries: &Vec<SinkFileStatus>) -> (files: Option<
    Vec<(String, i64)>,
>)
    ensures
        match files {
            Some(files) => {
                &&& logged
                &&& files@.map_values(|f: (String, i64)| (f.0@, f.1)) == live_set(
                    entries@,
                ).map_values(|e: SinkFileStatus| (e.path@, e.modification_time))
            },
            None => !logged,
        },
{
    if !logged {
        return None;
    }
    let live = live_positions(entries);
    let ghost at = live@.map_values(|i: usize| entries@[i as int]);
    let mut files: Vec<(String, i64)> = Vec::new();
    let mut i: usize = 0;
    while i < live.len()
        invariant
            i <= live@.len() == at.len(),
            at == live@.map_values(|i: usize| entries@[i as int]),
            forall|k: int| 0 <= k < live@.len() ==> (#[trigger] live@[k]) < entries@.len(),
            files@.len() == i,
            forall|k: int|
                0 <= k < i ==> (#[trigger] files@[k]).0@ == at[k].path@ && files@[k].1
                    == at[k].modification_time,
        decreases live@.len() - i,
    {
        let entry = &entries[live[i]];
        assert(at[i as int] == entries@[live@[i as int] as int]);
        files.push((entry.path.as_str().to_owned(), entry.modification_time));
        i = i + 1;
    }
    assert(files@.map_values(|f: (String, i64)| (f.0@, f.1)) =~= live_set(entries@).map_values(
        |e: SinkFileStatus| (e.path@, e.modification_time),
    ));
    Some(files)
}

/// Whether the metadata file of a batch holds the whole live set.
pub open spec fn is_compaction(batch_id: u64) -> bool {
    (batch_id + 1) % COMPACT_INTERVAL as int == 0
}

/// How a batch is committed.
#[derive(Debug)]
pub struct CommitPlan {
    /// The path of the metadata file.
    pub target: String,
    /// The last batch whose records go into the file before the batch's own, where there are any.
    pub roll_forward: Option<u64>,
}

/// How a batch is committed: most batches list what they added; every so often a batch lists the
/// live set of all batches before it as well.
pub fn plan_commit(base: &str, batch_id: u64) -> (plan: CommitPlan)
    requires
        batch_id < u64::MAX,
    ensures
        plan.target@ == child_path(
            child_path(base@, METADATA_DIR@),
            log_name(batch_id, is_compaction(batch_id)),
        ),
        plan.roll_forward == if is_compaction(batch_id) {
            Some((batch_id - 1) as u64)
        } else {
            None
        },
{
    if (batch_id + 1) % COMPACT_INTERVAL == 0 {
        CommitPlan {
            target: batch_file(base, batch_id, true),
            roll_forward: Some(batch_id - 1),
        }
    } else {
        CommitPlan { target: batch_file(base, batch_id, false), roll_forward: None }
    }
}

/// The records of the metadata file of a batch: those that the batch added, behind the live set where
/// the file holds it.
pub fn commit_records(
    live: Vec<SinkFileStatus>,
    adds: Vec<SinkFileStatus>,
    compact: bool,
) -> (records: Vec<SinkFileStatus>)
    ensures
        records@ == if compact {
            live@ + adds@
        } else {
            adds@
        },
{
    if compact {
        let ghost all = live@ + adds@;
        let mut records = live;
        let mut adds = adds;
        records.append(&mut adds);
        assert(records@ =~= all);
        records
    } else {
        adds
    }
}

/// A metadata file and its records.
#[verifier::ext_equal]
pub struct CommittedBatch {
    pub file: LogFile,
    pub entries: Seq<SinkFileStatus>,
}

/// The records that a reader sees in metadata files in order.
pub open spec fn read_entries(log: Seq<CommittedBatch>, newest: Option<u64>) -> Seq<SinkFileStatus>
    decreases log.len(),
{
    if log.len() == 0 {
        Seq::empty()
    } else {
        let before = read_entries(log.drop_last(), newest);
        if is_needed(log.last().file, newest) {
            before + log.last().entries
        } else {
            before
        }
    }
}

/// The metadata files of a log.
pub open spec fn log_files(log: Seq<CommittedBatch>) -> Seq<LogFile> {
    log.map_values(|b: CommittedBatch| b.file)
}

/// The records that a reader sees in a log.
pub open spec fn committed_entries(log: Seq<CommittedBatch>) -> Seq<SinkFileStatus> {
    read_entries(log, latest_compact(log_files(log)))
}

/// Whether the log is in order and ends before a batch.
pub open spec fn ends_before(log: Seq<CommittedBatch>, batch_id: u64) -> bool {
    forall|i: int| 0 <= i < log.len() ==> (#[trigger] log[i]).file.id < batch_id
}

/// The log after a batch was committed behind all others.
pub open spec fn committed(
    log: Seq<CommittedBatch>,
    file: LogFile,
    adds: Seq<SinkFileStatus>,
) -> Seq<CommittedBatch> {
    log.push(
        CommittedBatch {
            file,
            entries: if file.compact {
                live_set(committed_entries(log)) + adds
            } else {
                adds
            },
        },
    )
}

proof fn lemma_latest_compact_bound(files: Seq<LogFile>, bound: u64)
    requires
        forall|i: int| 0 <= i < files.len() ==> (#[trigger] files[i]).id < bound,
    ensures
        latest_compact(files) is Some ==> latest_compact(files)->0 < bound,
    decreases files.len(),
{
    if files.len() > 0 {
        assert(files[files.len() - 1].id < bound);
        assert forall|i: int| 0 <= i < files.drop_last().len() implies (
        #[trigger] files.drop_last()[i]).id < bound by {
            assert(files[i].id < bound);
        }
        lemma_latest_compact_bound(files.drop_last(), bound);
    }
}

proof fn lemma_nothing_needed_before(log: Seq<CommittedBatch>, newest: u64)
    requires
        ends_before(log, newest),
    ensures
        read_entries(log, Some(newest)) == Seq::<SinkFileStatus>::empty(),
    decreases log.len(),
{
    if log.len() > 0 {
        assert(log[log.len() - 1].file.id < newest);
        assert forall|i: int| 0 <= i < log.drop_last().len() implies (
        #[trigger] log.drop_last()[i]).file.id < newest by {
            assert(log[i].file.id < newest);
        }
        lemma_nothing_needed_before(log.drop_last(), newest);
    }
}

proof fn lemma_entries_after_commit(
    log: Seq<CommittedBatch>,
    file: LogFile,
    adds: Seq<SinkFileStatus>,
)
    requires
        ends_before(log, file.id),
    ensures
        committed_entries(committed(log, file, adds)) == if file.compact {
            live_set(committed_entries(log)) + adds
        } else {
            committed_entries(log) + adds
        },
{
    let after = committed(log, file, adds);
    let files = log_files(log);
    assert(log_files(after) =~= files.push(file));
    assert(after.drop_last() =~= log);
    assert forall|i: int| 0 <= i < files.len() implies (#[trigger] files[i]).id < file.id by {
        assert(log[i].file.id < file.id);
    }
    lemma_latest_compact_bound(files, file.id);
    if file.compact {
        assert(latest_compact(log_files(after)) == Some(file.id));
        lemma_nothing_needed_before(log, file.id);
        assert(committed_entries(after) =~= live_set(committed_entries(log)) + adds);
    } else {
        assert(log_files(after).drop_last() =~= files);
        assert(latest_compact(log_files(after)) == latest_compact(files));
    }
}

proof fn lemma_filter_all(s: Seq<SinkFileStatus>, p: spec_fn(SinkFileStatus) -> bool)
    requires
        forall|i: int| 0 <= i < s.len() ==> p(#[trigger] s[i]),
    ensures
        s.filter(p) == s,
    decreases s.len(),
{
    reveal(Seq::filter);
    if s.len() > 0 {
        assert(p(s[s.len() - 1]));
        assert forall|i: int| 0 <= i < s.drop_last().len() implies p(
            #[trigger] s.drop_last()[i],
        ) by {
            assert(p(s[i]));
        }
        lemma_filter_all(s.drop_last(), p);
        assert(s.filter(p) =~= s);
    } else {
        assert(s.filter(p) =~= s);
    }
}

proof fn lemma_filter_append(
    s: Seq<SinkFileStatus>,
    t: Seq<SinkFileStatus>,
    p: spec_fn(SinkFileStatus) -> bool,
)
    ensures
        (s + t).filter(p) == s.filter(p) + t.filter(p),
    decreases t.len(),
{
    reveal(Seq::filter);
    if t.len() == 0 {
        assert(s + t =~= s);
        assert(s.filter(p) + t.filter(p) =~= s.filter(p));
    } else {
        lemma_filter_append(s, t.drop_last(), p);
        assert((s + t).drop_last() =~= s + t.drop_last());
        assert((s + t).last() == t.last());
        assert((s + t).filter(p) =~= s.filter(p) + t.filter(p));
    }
}

proof fn lemma_filter_same(
    s: Seq<SinkFileStatus>,
    p: spec_fn(SinkFileStatus) -> bool,
    q: spec_fn(SinkFileStatus) -> bool,
)
    requires
        forall|i: int| 0 <= i < s.len() ==> p(#[trigger] s[i]) == q(s[i]),
    ensures
        s.filter(p) == s.filter(q),
    decreases s.len(),
{
    reveal(Seq::filter);
    if s.len() > 0 {
        assert(p(s[s.len() - 1]) == q(s[s.len() - 1]));
        assert forall|i: int| 0 <= i < s.drop_last().len() implies p(#[trigger] s.drop_last()[i])
            == q(s.drop_last()[i]) by {
            assert(p(s[i]) == q(s[i]));
        }
        lemma_filter_same(s.drop_last(), p, q);
    }
}

proof fn lemma_live_records(entries: Seq<SinkFileStatus>)
    ensures
        forall|i: int| 0 <= i < live_set(entries).len() ==> !(#[trigger] live_set(entries)[i]).deletes(),
{
    let p = |e: SinkFileStatus| !e.deletes() && !is_deleted(entries, e.path@);
    assert forall|i: int| 0 <= i < live_set(entries).len() implies !(
    #[trigger] live_set(entries)[i]).deletes() by {
        entries.lemma_filter_pred(p, i);
    }
}

/// A committed batch adds its records, and nothing else, behind the live set that a reader saw
/// before; a file that no committed batch lists is never seen. A file that an earlier record deletes
/// comes back only with a batch that writes the whole live set.
pub proof fn law_commit_appends_exactly_its_records(
    log: Seq<CommittedBatch>,
    file: LogFile,
    adds: Seq<SinkFileStatus>,
)
    requires
        ends_before(log, file.id),
        forall|i: int| 0 <= i < adds.len() ==> !(#[trigger] adds[i]).deletes(),
        file.compact || forall|i: int|
            0 <= i < adds.len() ==> !is_deleted(
                committed_entries(log),
                (#[trigger] adds[i]).path@,
            ),
    ensures
        live_set(committed_entries(committed(log, file, adds))) == live_set(committed_entries(log))
            + adds,
{
    lemma_entries_after_commit(log, file, adds);
    let old = committed_entries(log);
    let after = committed_entries(committed(log, file, adds));
    let p = |e: SinkFileStatus| !e.deletes() && !is_deleted(after, e.path@);
    if file.compact {
        lemma_live_records(old);
        assert forall|i: int| 0 <= i < after.len() implies !(#[trigger] after[i]).deletes() by {
            if i < live_set(old).len() {
                assert(after[i] == live_set(old)[i]);
            } else {
                assert(after[i] == adds[i - live_set(old).len()]);
            }
        }
        lemma_filter_all(after, p);
    } else {
        let q = |e: SinkFileStatus| !e.deletes() && !is_deleted(old, e.path@);
        assert forall|path: Seq<char>| #[trigger]
            is_deleted(after, path) == is_deleted(old, path) by {
            if is_deleted(old, path) {
                let i = choose|i: int|
                    0 <= i < old.len() && (#[trigger] old[i]).deletes() && old[i].path@ == path;
                assert(after[i] == old[i]);
            }
            if is_deleted(after, path) {
                let i = choose|i: int|
                    0 <= i < after.len() && (#[trigger] after[i]).deletes() && after[i].path@
                        == path;
                if i < old.len() {
                    assert(old[i] == after[i]);
                } else {
                    assert(after[i] == adds[i - old.len()]);
                }
            }
        }
        lemma_filter_append(old, adds, p);
        lemma_filter_same(old, p, q);
        lemma_filter_all(adds, p);
    }
}

/// The metadata files of batches that were committed in order, from one on.
pub open spec fn in_order(files: Seq<LogFile>, first: u64) -> bool {
    forall|i: int|
        0 <= i < files.len() ==> (#[trigger] files[i]).id == first + i && files[i].compact
            == is_compaction(files[i].id)
}

proof fn lemma_latest_compact_in_order(files: Seq<LogFile>, first: u64)
    requires
        in_order(files, first),
    ensures
        match latest_compact(files) {
            Some(c) => first <= c < first + files.len() <= c + COMPACT_INTERVAL && is_compaction(c),
            None => files.len() < COMPACT_INTERVAL,
        },
    decreases files.len(),
{
    if files.len() > 0 {
        let last = files.len() - 1;
        assert(files[last].id == first + last);
        let before = files.drop_last();
        assert forall|i: int| 0 <= i < before.len() implies (#[trigger] before[i]).id == first + i
            && before[i].compact == is_compaction(before[i].id) by {
            assert(files[i].id == first + i);
        }
        lemma_latest_compact_in_order(before, first);
        if !files[last].compact && latest_compact(before) is None && files.len()
            >= COMPACT_INTERVAL {
            assert(exists|k: int| first <= k < first + COMPACT_INTERVAL && #[trigger] ((k + 1)
                % 10) == 0) by {
                let k = first + 9 - (first % 10);
                assert((k + 1) % 10 == 0);
            }
            let k = choose|k: int|
                first <= k < first + COMPACT_INTERVAL && #[trigger] ((k + 1) % 10) == 0;
            assert(files[k - first].compact);
            lemma_some_compact(files, k - first);
        }
    }
}

proof fn lemma_some_compact(files: Seq<LogFile>, at: int)
    requires
        0 <= at < files.len(),
        files[at].compact,
    ensures
        latest_compact(files) is Some,
    decreases files.len(),
{
    if at < files.len() - 1 {
        assert(files.drop_last()[at] == files[at]);
        lemma_some_compact(files.drop_last(), at);
    }
}

proof fn lemma_needed_are_few(files: Seq<LogFile>, first: u64, newest: u64)
    requires
        in_order(files, first),
    ensures
        files.filter(|f: LogFile| is_needed(f, Some(newest))).len() <= if first + files.len()
            > newest {
            first + files.len() - newest
        } else {
            0
        },
    decreases files.len(),
{
    reveal(Seq::filter);
    let p = |f: LogFile| is_needed(f, Some(newest));
    if files.len() > 0 {
        let before = files.drop_last();
        assert forall|i: int| 0 <= i < before.len() implies (#[trigger] before[i]).id == first + i
            && before[i].compact == is_compaction(before[i].id) by {
            assert(files[i].id == first + i);
        }
        lemma_needed_are_few(before, first, newest);
        assert(files[files.len() - 1].id == first + files.len() - 1);
    }
}

/// Where batches are committed in order, a reader needs no more metadata files than there are
/// batches from one that holds the whole live set to the next.
pub proof fn law_readers_need_few_files(files: Seq<LogFile>, first: u64)
    requires
        in_order(files, first),
    ensures
        needed_files(files).len() <= COMPACT_INTERVAL,
{
    lemma_latest_compact_in_order(files, first);
    match latest_compact(files) {
        Some(c) => {
            lemma_needed_are_few(files, first, c);
        },
        None => {
            files.lemma_filter_len(|f: LogFile| is_needed(f, latest_compact(files)));
        },
    }
}

/// A batch that is committed again, with other records, counts with the later records only: its
/// metadata file is replaced, and a file with the whole live set draws on the batches before it.
pub proof fn law_retried_commit_replaces(
    log: Seq<CommittedBatch>,
    file: LogFile,
    first: Seq<SinkFileStatus>,
    again: Seq<SinkFileStatus>,
)
    requires
        ends_before(log, file.id),
    ensures
        committed(committed(log, file, first).drop_last(), file, again) == committed(
            log,
            file,
            again,
        ),
{
    assert(committed(log, file, first).drop_last() =~= log);
}

proof fn lemma_newest_compact(files: Seq<LogFile>)
    requires
        sorted(files),
    ensures
        latest_compact(files) is None <==> forall|i: int|
            0 <= i < files.len() ==> !(#[trigger] files[i]).compact,
        latest_compact(files) matches Some(c) ==> (exists|i: int|
            0 <= i < files.len() && (#[trigger] files[i]).compact && files[i].id == c) && forall|
            i: int,
        | 0 <= i < files.len() && (#[trigger] files[i]).compact ==> files[i].id <= c,
    decreases files.len(),
{
    if files.len() > 0 {
        let rest = files.drop_last();
        let n = files.len() - 1;
        assert(sorted(rest)) by {
            assert forall|i: int, j: int|
                #![trigger rest[i], rest[j]]
                0 <= i <= j < rest.len() implies rest[i].ranks(&rest[j]) by {
                assert(files[i].ranks(&files[j]));
            }
        }
        lemma_newest_compact(rest);
        if files.last().compact {
            assert(files[n].compact && files[n].id == files.last().id);
            assert forall|i: int| 0 <= i < files.len() && (#[trigger] files[i]).compact implies
                files[i].id <= files.last().id by {
                assert(files[i].ranks(&files[n]));
            }
        } else {
            if latest_compact(rest) is None {
                assert forall|i: int| 0 <= i < files.len() implies !(#[trigger] files[i]).compact by {
                    if i < n {
                        assert(rest[i] == files[i]);
                    }
                }
            } else {
                let c = latest_compact(rest)->0;
                let i = choose|i: int|
                    0 <= i < rest.len() && (#[trigger] rest[i]).compact && rest[i].id == c;
                assert(files[i].compact && files[i].id == c);
                assert forall|i: int| 0 <= i < files.len() && (#[trigger] files[i]).compact implies
                    files[i].id <= c by {
                    assert(rest[i] == files[i]);
                }
            }
        }
    }
}

/// Of the files of a log, in their order, a reader needs those that no compacted file covers: a file
/// covers all that come before it, and the plain file of its own batch.
pub proof fn law_covered_files_are_not_read(files: Seq<LogFile>, i: int)
    requires
        sorted(files),
        0 <= i < files.len(),
    ensures
        is_needed(files[i], latest_compact(files)) <==> forall|k: int|
            0 <= k < files.len() && (#[trigger] files[k]).compact ==> files[k].id < files[i].id || (
            files[k].id == files[i].id && files[i].compact),
{
    lemma_newest_compact(files);
    let f = files[i];
    if latest_compact(files) is Some {
        let c = latest_compact(files)->0;
        let k = choose|k: int|
            0 <= k < files.len() && (#[trigger] files[k]).compact && files[k].id == c;
        if is_needed(f, latest_compact(files)) {
            assert forall|k: int| 0 <= k < files.len() && (#[trigger] files[k]).compact implies
                files[k].id < f.id || (files[k].id == f.id && f.compact) by {
                assert(files[k].id <= c);
            }
        }
    }
}

/// Every tenth batch is compacted, the last of each ten.
pub proof fn law_every_tenth_batch_is_compacted(batch_id: u64)
    ensures
        is_compaction(batch_id) <==> exists|tens: int| batch_id + 1 == 10 * #[trigger] (tens + 0),
        is_compaction(batch_id) <==> batch_id as int % 10 == 9,
{
    if is_compaction(batch_id) {
        let tens = (batch_id + 1) / 10;
        assert(batch_id + 1 == 10 * (tens + 0));
    }
}

/// A file is live where an entry added it and no entry deletes it.
pub proof fn law_live_files_were_added_and_not_deleted(entries: Seq<SinkFileStatus>, e: SinkFileStatus)
    ensures
        live_set(entries).contains(e) <==> entries.contains(e) && e.action@ != "delete"@ && forall|
            i: int,
        |
            0 <= i < entries.len() && (#[trigger] entries[i]).action@ == "delete"@
                ==> entries[i].path@ != e.path@,
{
    let p = |x: SinkFileStatus| !x.deletes() && !is_deleted(entries, x.path@);
    assert(live_set(entries) == entries.filter(p));
    if entries.contains(e) && p(e) {
        let i = choose|i: int| 0 <= i < entries.len() && entries[i] == e;
        entries.lemma_filter_contains(p, i);
    }
    if live_set(entries).contains(e) {
        let i = choose|i: int| 0 <= i < live_set(entries).len() && live_set(entries)[i] == e;
        entries.lemma_filter_pred(p, i);
        entries.lemma_filter_contains_rev(p, e);
    }
    if e.action@ != "delete"@ && !p(e) {
        let i = choose|i: int|
            0 <= i < entries.len() && (#[trigger] entries[i]).deletes() && entries[i].path@
                == e.path@;
        assert(entries[i].action@ == "delete"@);
    }
    if p(e) {
        assert forall|i: int|
            0 <= i < entries.len() && (#[trigger] entries[i]).action@ == "delete"@ implies
            entries[i].path@ != e.path@ by {
            assert(entries[i].deletes());
        }
    }
}

/// The records of a body are its lines, without a return at their end, in their order, but for empty
/// lines and lines that name the version.
pub proof fn law_records_are_the_lines(pieces: Seq<Seq<char>>)
    ensures
        record_lines(pieces) == pieces.map_values(
            |line: Seq<char>|
                if line.len() > 0 && line[line.len() - 1] == '\r' {
                    line.take(line.len() - 1)
                } else {
                    line
                },
        ).filter(|line: Seq<char>| line.len() > 0 && line != VERSION_LINE@),
    decreases pieces.len(),
{
    reveal(Seq::filter);
    let f = |line: Seq<char>|
        if line.len() > 0 && line[line.len() - 1] == '\r' {
            line.take(line.len() - 1)
        } else {
            line
        };
    if pieces.len() > 0 {
        law_records_are_the_lines(pieces.drop_last());
        assert(pieces.map_values(f).drop_last() =~= pieces.drop_last().map_values(f));
        assert(pieces.map_values(f).last() == f(pieces.last()));
        assert(f(pieces.last()) =~= without_return(pieces.last()));
    } else {
        assert(pieces.map_values(f) =~= Seq::<Seq<char>>::empty());
    }
}

/// The name of a file is what follows the last slash of its path.
pub proof fn law_leaf_follows_the_last_slash(path: Seq<char>)
    ensures
        leaf_of(path).len() <= path.len(),
        path.skip(path.len() - leaf_of(path).len()) == leaf_of(path),
        forall|i: int| 0 <= i < leaf_of(path).len() ==> #[trigger] leaf_of(path)[i] != '/',
        leaf_of(path).len() < path.len() ==> path[path.len() - leaf_of(path).len() - 1] == '/',
{
    law_last_position_is_the_last(path, '/');
    let at = last_position(path, '/');
    assert forall|i: int| 0 <= i < leaf_of(path).len() implies #[trigger] leaf_of(path)[i]
        != '/' by {
        assert(path[at + 1 + i] != '/');
    }
}

/// The files of a log are those paths that name a batch, up to the last one asked for, in order.
pub proof fn law_log_files_name_batches(
    paths: Seq<Seq<char>>,
    up_to: Option<u64>,
    files: Seq<LogFile>,
)
    requires
        are_log_files(paths, up_to, files),
    ensures
        files.map_values(|f: LogFile| f.path@) == paths.filter(|p: Seq<char>| has_log_file(p, up_to)),
        forall|i: int|
            0 <= i < files.len() ==> parse_log_name_of(leaf_of((#[trigger] files[i]).path@)) == Some(
                (files[i].id, files[i].compact),
            ) && (up_to is Some ==> files[i].id <= up_to->0),
    decreases paths.len(),
{
    reveal(Seq::filter);
    let f = |f: LogFile| f.path@;
    if paths.len() > 0 {
        if has_log_file(paths.last(), up_to) {
            let rest = files.drop_last();
            law_log_files_name_batches(paths.drop_last(), up_to, rest);
            assert(files.map_values(f) =~= rest.map_values(f).push(paths.last()));
            assert forall|i: int| 0 <= i < files.len() implies parse_log_name_of(
                leaf_of((#[trigger] files[i]).path@),
            ) == Some((files[i].id, files[i].compact)) && (up_to is Some ==> files[i].id
                <= up_to->0) by {
                if i < rest.len() {
                    assert(rest[i] == files[i]);
                }
            }
        } else {
            law_log_files_name_batches(paths.drop_last(), up_to, files);
        }
    } else {
        assert(files.map_values(f) =~= Seq::<Seq<char>>::empty());
    }
}

} // verus!
