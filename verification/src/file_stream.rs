//! The streaming file source: which files a micro-batch reads, and which batch it is.

use chrono::DateTime;
use vstd::prelude::*;

use crate::sorting::{
    lemma_stable_sorted, lemma_text_before_total, lemma_text_before_transitive, sort, stable_sorted,
    text_before, text_less, Ranked,
};
use crate::text;
use crate::text::{has_suffix, parse_unsigned, texts};

verus! {

/// A file that the source could read.
#[derive(Debug)]
pub struct FileCandidate {
    /// When the file was last modified: seconds since the epoch, and nanoseconds.
    pub modified: (i64, u32),
    /// The path in the object store, which identifies the file.
    pub id: String,
    /// The URL to read the file from.
    pub url: String,
}

impl Ranked for FileCandidate {
    open spec fn ranks(&self, other: &Self) -> bool {
        ||| self.modified.0 < other.modified.0
        ||| self.modified.0 == other.modified.0 && self.modified.1 < other.modified.1
        ||| self.modified == other.modified && (text_before(self.id@, other.id@) || self.id@
            == other.id@)
    }

    proof fn lemma_total(a: &Self, b: &Self) {
        lemma_text_before_total(a.id@, b.id@);
    }

    proof fn lemma_transitive(a: &Self, b: &Self, c: &Self) {
        if text_before(a.id@, b.id@) && text_before(b.id@, c.id@) {
            lemma_text_before_transitive(a.id@, b.id@, c.id@);
        }
    }

    fn ranked(&self, other: &Self) -> (before: bool) {
        if self.modified.0 != other.modified.0 {
            self.modified.0 < other.modified.0
        } else if self.modified.1 != other.modified.1 {
            self.modified.1 < other.modified.1
        } else {
            text_less(self.id.as_str(), other.id.as_str()) || self.id == other.id
        }
    }
}

/// The first millisecond since the epoch that `chrono` has a date for.
pub const FIRST_MILLISECOND: i64 = -8_334_601_228_800_000;

/// The last millisecond since the epoch that `chrono` has a date for.
pub const LAST_MILLISECOND: i64 = 8_210_266_876_799_999;

/// `chrono::DateTime::from_timestamp_millis`, with the seconds since the epoch and the nanoseconds
/// of its result. It gives the time for the milliseconds that fall into the years from -262143 to
/// 262142, and nothing for others.
#[verifier::external_body]
fn time_of_millis(millis: i64) -> (time: Option<(i64, u32)>)
    ensures
        match time {
            Some((seconds, nanos)) => {
                &&& FIRST_MILLISECOND <= millis <= LAST_MILLISECOND
                &&& seconds == millis as int / 1000
                &&& nanos == (millis as int % 1000) * 1_000_000
            },
            None => millis < FIRST_MILLISECOND || LAST_MILLISECOND < millis,
        },
{
    let time = DateTime::from_timestamp_millis(millis)?;
    Some((time.timestamp(), time.timestamp_subsec_nanos()))
}

/// When a file was modified, from the milliseconds in a commit log: seconds since the epoch, and
/// nanoseconds. A time without a date counts as the epoch.
pub fn modified_from_millis(millis: i64) -> (modified: (i64, u32))
    ensures
        if FIRST_MILLISECOND <= millis <= LAST_MILLISECOND {
            modified.0 == millis as int / 1000 && modified.1 == (millis as int % 1000) * 1_000_000
        } else {
            modified == (0i64, 0u32)
        },
{
    match time_of_millis(millis) {
        Some(time) => time,
        None => (0, 0),
    }
}

/// The files that are not among those seen, in their order.
pub open spec fn unseen(candidates: Seq<FileCandidate>, seen: Seq<Seq<char>>) -> Seq<FileCandidate> {
    candidates.filter(|c: FileCandidate| !seen.contains(c.id@))
}

/// The first `max` items, or all where there is no limit.
pub open spec fn first_of<T>(items: Seq<T>, max: Option<usize>) -> Seq<T> {
    match max {
        Some(n) => if n < items.len() {
            items.take(n as int)
        } else {
            items
        },
        None => items,
    }
}

/// The files that a micro-batch reads: of those not seen the oldest ones, up to the limit.
pub open spec fn batch_files(
    candidates: Seq<FileCandidate>,
    seen: Seq<Seq<char>>,
    max: Option<usize>,
) -> Seq<FileCandidate> {
    first_of(stable_sorted(unseen(candidates, seen)), max)
}

/// A list of names without repetition.
pub open spec fn with_name(names: Seq<Seq<char>>, name: Seq<char>) -> Seq<Seq<char>> {
    if names.contains(name) {
        names
    } else {
        names.push(name)
    }
}

/// The names of files that are processed once a micro-batch is committed.
pub open spec fn processed_names(seen: Seq<Seq<char>>, taken: Seq<FileCandidate>) -> Seq<Seq<char>>
    decreases taken.len(),
{
    if taken.len() == 0 {
        seen
    } else {
        with_name(processed_names(seen, taken.drop_last()), taken.last().id@)
    }
}

/// What a micro-batch of the file source reads.
#[derive(Debug)]
pub struct FileScan {
    /// The files to read, oldest first.
    pub files: Vec<FileCandidate>,
    /// The files that are processed once the batch is committed.
    pub processed: Vec<String>,
}

fn has_text(list: &Vec<String>, s: &str) -> (found: bool)
    ensures
        found == texts(list@).contains(s@),
{
    let mut i: usize = 0;
    let ghost all = texts(list@);
    while i < list.len()
        invariant
            i <= list@.len(),
            all == texts(list@),
            forall|j: int| 0 <= j < i ==> #[trigger] all[j] != s@,
        decreases list@.len() - i,
    {
        assert(all[i as int] == list@[i as int]@);
        if text::str_eq(list[i].as_str(), s) {
            assert(all.contains(s@));
            return true;
        }
        i = i + 1;
    }
    false
}

fn keep_unseen(candidates: Vec<FileCandidate>, seen: &Vec<String>) -> (out: Vec<FileCandidate>)
    ensures
        out@ == unseen(candidates@, texts(seen@)),
{
    let ghost all = candidates@;
    let ghost names = texts(seen@);
    let mut rest = candidates;
    let mut out: Vec<FileCandidate> = Vec::new();
    let ghost mut n: int = 0;
    reveal(Seq::filter);
    assert(unseen(all.take(0), names) =~= out@);
    assert(all.skip(0) =~= all);
    while rest.len() > 0
        invariant
            0 <= n <= all.len(),
            names == texts(seen@),
            rest@ == all.skip(n),
            out@ == unseen(all.take(n), names),
        decreases rest@.len(),
    {
        reveal(Seq::filter);
        let c = rest.remove(0);
        proof {
            assert(all.take(n + 1).drop_last() =~= all.take(n));
            assert(all.take(n + 1).last() == c);
            assert(rest@ =~= all.skip(n + 1));
            n = n + 1;
        }
        if !has_text(seen, c.id.as_str()) {
            out.push(c);
        }
    }
    assert(all.take(n) =~= all);
    out
}

/// Plans a micro-batch of the file source: the files not seen before, oldest first and at most as
/// many as allowed, and the names that are processed once the batch is committed.
pub fn plan_scan(candidates: Vec<FileCandidate>, seen: Vec<String>, max: Option<usize>) -> (scan:
    FileScan)
    ensures
        scan.files@ == batch_files(candidates@, texts(seen@), max),
        texts(scan.processed@) == processed_names(texts(seen@), scan.files@),
{
    let fresh = keep_unseen(candidates, &seen);
    let mut files = sort(fresh);
    if let Some(n) = max {
        if n < files.len() {
            files.truncate(n);
            assert(files@ =~= stable_sorted(unseen(candidates@, texts(seen@))).take(n as int));
        }
    }
    let ghost before = texts(seen@);
    let mut processed = seen;
    let mut i: usize = 0;
    assert(files@.take(0) =~= Seq::<FileCandidate>::empty());
    while i < files.len()
        invariant
            i <= files@.len(),
            texts(processed@) == processed_names(before, files@.take(i as int)),
        decreases files@.len() - i,
    {
        let ghost prior = texts(processed@);
        assert(files@.take(i + 1).drop_last() =~= files@.take(i as int));
        if !has_text(&processed, files[i].id.as_str()) {
            processed.push(files[i].id.clone());
            assert(texts(processed@) =~= prior.push(files@[i as int].id@));
        }
        i = i + 1;
    }
    assert(files@.take(i as int) =~= files@);
    FileScan { files, processed }
}

proof fn lemma_processed_contains(seen: Seq<Seq<char>>, taken: Seq<FileCandidate>)
    ensures
        forall|name: Seq<char>| #[trigger]
            processed_names(seen, taken).contains(name) <==> seen.contains(name) || exists|i: int|
                0 <= i < taken.len() && (#[trigger] taken[i]).id@ == name,
    decreases taken.len(),
{
    if taken.len() > 0 {
        let prior = taken.drop_last();
        lemma_processed_contains(seen, prior);
        let before = processed_names(seen, prior);
        let after = processed_names(seen, taken);
        let last = taken.last().id@;
        assert forall|name: Seq<char>| #[trigger]
            after.contains(name) <==> before.contains(name) || name == last by {
            if !before.contains(last) {
                assert(after == before.push(last));
                if before.contains(name) {
                    assert(after[before.index_of(name)] == name);
                }
                assert(after[before.len() as int] == last);
                if after.contains(name) && name != last {
                    assert(before[after.index_of(name)] == name);
                }
            }
        }
        assert forall|name: Seq<char>| #[trigger]
            after.contains(name) <==> seen.contains(name) || exists|i: int|
                0 <= i < taken.len() && (#[trigger] taken[i]).id@ == name by {
            if before.contains(name) && !seen.contains(name) {
                let i = choose|i: int| 0 <= i < prior.len() && (#[trigger] prior[i]).id@ == name;
                assert(taken[i].id@ == name);
            }
            if name == last {
                assert(taken[taken.len() - 1].id@ == name);
            }
            if exists|i: int| 0 <= i < taken.len() && (#[trigger] taken[i]).id@ == name {
                let i = choose|i: int| 0 <= i < taken.len() && (#[trigger] taken[i]).id@ == name;
                if i < prior.len() {
                    assert(prior[i].id@ == name);
                }
            }
        }
    }
}

/// A file that a committed micro-batch processed is not read again, whatever is listed then.
pub proof fn law_processed_files_are_not_read_again(
    seen: Seq<Seq<char>>,
    taken: Seq<FileCandidate>,
    listed: Seq<FileCandidate>,
    max: Option<usize>,
)
    ensures
        forall|k: int|
            0 <= k < batch_files(listed, processed_names(seen, taken), max).len() ==> {
                let id = (#[trigger] batch_files(
                    listed,
                    processed_names(seen, taken),
                    max,
                )[k]).id@;
                &&& !seen.contains(id)
                &&& forall|i: int| 0 <= i < taken.len() ==> (#[trigger] taken[i]).id@ != id
            },
{
    let names = processed_names(seen, taken);
    lemma_processed_contains(seen, taken);
    let fresh = unseen(listed, names);
    let p = |c: FileCandidate| !names.contains(c.id@);
    assert forall|i: int| 0 <= i < fresh.len() implies !names.contains(
        (#[trigger] fresh[i]).id@,
    ) by {
        listed.lemma_filter_pred(p, i);
        assert(p(fresh[i]));
    }
    let ordered = stable_sorted(fresh);
    crate::sorting::lemma_stable_sorted(fresh);
    let read = batch_files(listed, names, max);
    assert forall|k: int| 0 <= k < read.len() implies !names.contains(
        (#[trigger] read[k]).id@,
    ) by {
        broadcast use vstd::seq_lib::group_to_multiset_ensures;

        assert(read[k] == ordered[k]);
        assert(ordered.contains(ordered[k]));
        assert(ordered.to_multiset().count(ordered[k]) > 0);
        assert(fresh.to_multiset().count(ordered[k]) > 0);
        assert(fresh.contains(ordered[k]));
        let i = fresh.index_of(ordered[k]);
        assert(!names.contains(fresh[i].id@));
    }
}

/// The batch that a checkpoint is on: the staged one where there is one, which is then processed
/// again under its number; else the one behind the last committed, as recorded with the committed
/// files or, failing that, by the markers of the driver; else the first.
pub fn current_batch_id(staged: Option<u64>, committed: Option<u64>, marker: Option<u64>) -> (id: u64)
    requires
        staged is None && committed is Some ==> committed->0 < u64::MAX,
        staged is None && committed is None && marker is Some ==> marker->0 < u64::MAX,
    ensures
        id == batch_number(staged, committed, marker),
{
    match staged {
        Some(n) => n,
        None => match committed {
            Some(n) => n + 1,
            None => match marker {
                Some(n) => n + 1,
                None => 0,
            },
        },
    }
}

/// The number of the batch that a checkpoint is on.
pub open spec fn batch_number(
    staged: Option<u64>,
    committed: Option<u64>,
    marker: Option<u64>,
) -> int {
    match (staged, committed, marker) {
        (Some(n), _, _) => n as int,
        (None, Some(n), _) => n + 1,
        (None, None, Some(n)) => n + 1,
        (None, None, None) => 0,
    }
}

/// A batch keeps its number while it is staged, however often it is attempted, and once it is
/// committed the next batch has the next number: no number is skipped or used for two batches.
pub proof fn law_batch_numbering(committed: Option<u64>, marker: Option<u64>)
    requires
        batch_number(None, committed, marker) <= u64::MAX,
    ensures
        ({
            let n = batch_number(None, committed, marker) as u64;
            &&& batch_number(Some(n), committed, marker) == n
            &&& batch_number(None, Some(n), marker) == n + 1
        }),
{
}

/// The largest number among names that are numbers.
pub open spec fn largest_number(names: Seq<Seq<char>>) -> Option<nat>
    decreases names.len(),
{
    if names.len() == 0 {
        None
    } else {
        let before = largest_number(names.drop_last());
        match parse_unsigned(names.last(), u64::MAX as nat) {
            Some(n) => match before {
                Some(m) => if m >= n {
                    Some(m)
                } else {
                    Some(n)
                },
                None => Some(n),
            },
            None => before,
        }
    }
}

/// The last batch that the driver marked, from the names of its markers.
pub fn latest_offset_batch_id(names: &[String]) -> (latest: Option<u64>)
    ensures
        match latest {
            Some(n) => largest_number(texts(names@)) == Some(n as nat),
            None => largest_number(texts(names@)) is None,
        },
{
    let ghost all = texts(names@);
    let mut latest: Option<u64> = None;
    let mut i: usize = 0;
    assert(all.take(0) =~= Seq::<Seq<char>>::empty());
    while i < names.len()
        invariant
            i <= names@.len(),
            all == texts(names@),
            match latest {
                Some(n) => largest_number(all.take(i as int)) == Some(n as nat),
                None => largest_number(all.take(i as int)) is None,
            },
        decreases names@.len() - i,
    {
        assert(all.take(i + 1).drop_last() =~= all.take(i as int));
        assert(all.take(i + 1).last() == names@[i as int]@);
        if let Some(n) = text::parse_u64(names[i].as_str()) {
            latest = match latest {
                Some(m) => if m >= n {
                    Some(m)
                } else {
                    Some(n)
                },
                None => Some(n),
            };
        }
        i = i + 1;
    }
    assert(all.take(i as int) =~= all);
    latest
}

/// A path with one more segment.
pub open spec fn path_with(base: Seq<char>, segment: Seq<char>) -> Seq<char> {
    if base.len() == 0 {
        segment
    } else if base.last() == '/' {
        base + segment
    } else {
        base + "/"@ + segment
    }
}

fn path_join(base: &str, segment: &str) -> (path: String)
    ensures
        path@ == path_with(base@, segment@),
{
    if base.is_empty() {
        return segment.to_owned();
    }
    proof {
        reveal_strlit("/");
        if has_suffix(base@, "/"@) {
            assert(base@.skip(base@.len() - 1)[0] == '/');
        }
        if base@.last() == '/' {
            assert(base@.skip(base@.len() - 1) =~= "/"@);
        }
    }
    let mut path = base.to_owned();
    if !text::ends_with(base, "/") {
        path.append("/");
    }
    path.append(segment);
    path
}

/// The directory of a checkpoint that holds the records of its source.
pub fn sources_dir(checkpoint_location: &str) -> (path: String)
    ensures
        path@ == path_with(path_with(checkpoint_location@, "sources"@), "0"@),
{
    let dir = path_join(checkpoint_location, "sources");
    path_join(dir.as_str(), "0")
}

/// The URL of an object: the URL of its store, a slash, and its path.
pub open spec fn url_of(store_url: Seq<char>, path: Seq<char>) -> Seq<char> {
    if has_suffix(store_url, "/"@) {
        store_url + path
    } else {
        store_url + "/"@ + path
    }
}

/// The URL of an object: the URL of its store, a slash, and its path.
pub fn object_url(store_url: &str, path: &str) -> (url: String)
    ensures
        url@ == url_of(store_url@, path@),
{
    let mut url = store_url.to_owned();
    if !text::ends_with(store_url, "/") {
        url.append("/");
    }
    url.append(path);
    url
}

/// The files that a checkpoint has committed: those of its record, and where the object is none,
/// one name per line of the older form.
pub fn read_committed_files(record: Option<Vec<String>>, body: &str) -> (files: Vec<String>)
    ensures
        match record {
            Some(r) => files == r,
            None => texts(files@) == listed_names(body@),
        },
{
    match record {
        Some(files) => files,
        None => {
            let pieces = text::split(body, '\n');
            let ghost all = texts(pieces@);
            proof {
                text::lemma_split_join(body@, '\n');
            }
            let n: usize = pieces.len();
            assert(n == all.len());
            let mut files: Vec<String> = Vec::new();
            let mut i: usize = 0;
            assert(all.take(0) =~= Seq::<Seq<char>>::empty());
            assert(texts(files@) =~= Seq::<Seq<char>>::empty());
            while i < n
                invariant
                    n == pieces@.len(),
                    n == all.len(),
                    i <= n,
                    all == texts(pieces@),
                    texts(files@) == listed_part(all, i as nat),
                decreases n - i,
            {
                let ghost before = texts(files@);
                assert(all[i as int] == pieces@[i as int]@);
                let name = if i < n - 1 {
                    crate::sink_log::strip_return(pieces[i].as_str())
                } else {
                    pieces[i].clone()
                };
                if !name.as_str().is_empty() {
                    let ghost view = name@;
                    files.push(name);
                    assert(texts(files@) =~= before.push(view));
                }
                i = i + 1;
            }
            files
        },
    }
}

/// The names on the first `n` of some lines; a line that ends in a newline loses its carriage
/// return.
pub open spec fn listed_part(pieces: Seq<Seq<char>>, n: nat) -> Seq<Seq<char>>
    decreases n,
{
    if n == 0 {
        Seq::empty()
    } else {
        let before = listed_part(pieces, (n - 1) as nat);
        let name = if n < pieces.len() {
            crate::sink_log::without_return(pieces[n - 1])
        } else {
            pieces[n - 1]
        };
        if name.len() > 0 {
            before.push(name)
        } else {
            before
        }
    }
}

/// The names in a text with one name per line, without empty lines.
pub open spec fn listed_names(body: Seq<char>) -> Seq<Seq<char>> {
    let pieces = text::split_on(body, '\n');
    listed_part(pieces, pieces.len())
}

/// The number of output partitions of a file source: those of its input, at least one.
pub fn source_partitions(input_partitions: usize) -> (n: usize)
    ensures
        n == if input_partitions >= 1 {
            input_partitions
        } else {
            1
        },
{
    if input_partitions >= 1 {
        input_partitions
    } else {
        1
    }
}

/// Whether a file comes before another or with it: it was changed earlier, or at the same time and
/// its name is not behind the other's.
pub open spec fn not_later(a: FileCandidate, b: FileCandidate) -> bool {
    if a.modified.0 != b.modified.0 {
        a.modified.0 < b.modified.0
    } else if a.modified.1 != b.modified.1 {
        a.modified.1 < b.modified.1
    } else {
        a.id@ == b.id@ || text_before(a.id@, b.id@)
    }
}

/// A batch reads listed files that were not seen, the oldest first and at most as many as allowed;
/// and a file that has to wait is not older than any that is read, and waits only for the limit.
pub proof fn law_oldest_files_are_read_first(
    candidates: Seq<FileCandidate>,
    seen: Seq<Seq<char>>,
    max: Option<usize>,
    waiting: FileCandidate,
)
    ensures
        ({
            let files = batch_files(candidates, seen, max);
            &&& forall|i: int|
                0 <= i < files.len() ==> candidates.contains(#[trigger] files[i])
                    && !seen.contains(files[i].id@)
            &&& forall|i: int, j: int|
                0 <= i < j < files.len() ==> not_later(#[trigger] files[i], #[trigger] files[j])
            &&& max is Some ==> files.len() <= max->0
            &&& candidates.contains(waiting) && !seen.contains(waiting.id@) && !files.contains(
                waiting,
            ) ==> max is Some && files.len() == max->0 && forall|i: int|
                0 <= i < files.len() ==> not_later(#[trigger] files[i], waiting)
        }),
{
    let p = |c: FileCandidate| !seen.contains(c.id@);
    let new = unseen(candidates, seen);
    let all = stable_sorted(new);
    let files = batch_files(candidates, seen, max);
    assert(new == candidates.filter(p));
    lemma_stable_sorted(new);
    all.to_multiset_ensures();
    new.to_multiset_ensures();
    assert forall|i: int| 0 <= i < files.len() implies candidates.contains(#[trigger] files[i])
        && !seen.contains(files[i].id@) by {
        assert(files[i] == all[i]);
        assert(all.contains(all[i]));
        assert(new.to_multiset().count(all[i]) > 0);
        assert(new.contains(all[i]));
        let k = choose|k: int| 0 <= k < new.len() && new[k] == all[i];
        candidates.lemma_filter_pred(p, k);
        candidates.lemma_filter_contains_rev(p, all[i]);
    }
    assert forall|i: int, j: int| 0 <= i < j < files.len() implies not_later(
        #[trigger] files[i],
        #[trigger] files[j],
    ) by {
        assert(all[i].ranks(&all[j]));
    }
    if candidates.contains(waiting) && !seen.contains(waiting.id@) && !files.contains(waiting) {
        let k = choose|k: int| 0 <= k < candidates.len() && candidates[k] == waiting;
        candidates.lemma_filter_contains(p, k);
        assert(new.contains(waiting));
        assert(all.to_multiset().count(waiting) > 0);
        assert(all.contains(waiting));
        let w = choose|w: int| 0 <= w < all.len() && all[w] == waiting;
        assert(w >= files.len()) by {
            if w < files.len() {
                assert(files[w] == waiting);
            }
        }
        assert forall|i: int| 0 <= i < files.len() implies not_later(
            #[trigger] files[i],
            waiting,
        ) by {
            assert(all[i].ranks(&all[w]));
        }
    }
}

/// The names that count as processed are those that did before and those of the files just taken, no
/// name twice.
pub proof fn law_processed_names_grow(seen: Seq<Seq<char>>, taken: Seq<FileCandidate>, name: Seq<char>)
    ensures
        processed_names(seen, taken).contains(name) <==> seen.contains(name) || exists|i: int|
            0 <= i < taken.len() && (#[trigger] taken[i]).id@ == name,
        seen.no_duplicates() ==> processed_names(seen, taken).no_duplicates(),
        processed_names(seen, taken).len() >= seen.len(),
        processed_names(seen, taken).take(seen.len() as int) == seen,
    decreases taken.len(),
{
    if taken.len() > 0 {
        let rest = taken.drop_last();
        let n = taken.len() - 1;
        let before = processed_names(seen, rest);
        let all = processed_names(seen, taken);
        let last = taken.last().id@;
        law_processed_names_grow(seen, rest, name);
        assert(all.take(seen.len() as int) =~= before.take(seen.len() as int));
        if exists|i: int| 0 <= i < rest.len() && (#[trigger] rest[i]).id@ == name {
            let i = choose|i: int| 0 <= i < rest.len() && (#[trigger] rest[i]).id@ == name;
            assert(taken[i].id@ == name);
        }
        if exists|i: int| 0 <= i < taken.len() && (#[trigger] taken[i]).id@ == name {
            let i = choose|i: int| 0 <= i < taken.len() && (#[trigger] taken[i]).id@ == name;
            if i < n {
                assert(rest[i].id@ == name);
            }
        }
        if name == last {
            assert(taken[n].id@ == name);
        }
        if !before.contains(last) {
            assert(all == before.push(last));
            assert(all.contains(name) <==> before.contains(name) || name == last) by {
                if before.contains(name) {
                    let i = choose|i: int| 0 <= i < before.len() && before[i] == name;
                    assert(all[i] == name);
                }
                if name == last {
                    assert(all[before.len() as int] == name);
                }
                if all.contains(name) && name != last {
                    let i = choose|i: int| 0 <= i < all.len() && all[i] == name;
                    assert(before[i] == name);
                }
            }
        }
    } else {
        assert(seen.take(seen.len() as int) =~= seen);
    }
}

/// The largest number among names is one of them, and none of them is larger; names that are no
/// numbers do not count.
pub proof fn law_largest_number_is_the_largest(names: Seq<Seq<char>>)
    ensures
        largest_number(names) is None <==> forall|i: int|
            0 <= i < names.len() ==> parse_unsigned(#[trigger] names[i], u64::MAX as nat) is None,
        largest_number(names) is Some ==> (exists|i: int|
            0 <= i < names.len() && parse_unsigned(#[trigger] names[i], u64::MAX as nat)
                == largest_number(names)) && forall|i: int|
            0 <= i < names.len() && parse_unsigned(#[trigger] names[i], u64::MAX as nat) is Some
                ==> parse_unsigned(names[i], u64::MAX as nat)->0 <= largest_number(names)->0,
    decreases names.len(),
{
    if names.len() > 0 {
        let rest = names.drop_last();
        let n = names.len() - 1;
        let max = u64::MAX as nat;
        law_largest_number_is_the_largest(rest);
        assert(parse_unsigned(names[n], max) == parse_unsigned(names.last(), max));
        if largest_number(rest) is Some {
            let i = choose|i: int|
                0 <= i < rest.len() && parse_unsigned(#[trigger] rest[i], max) == largest_number(
                    rest,
                );
            assert(parse_unsigned(names[i], max) == largest_number(rest));
        }
        assert forall|i: int|
            0 <= i < names.len() && parse_unsigned(#[trigger] names[i], max) is Some implies
            largest_number(names) is Some && parse_unsigned(names[i], max)->0 <= largest_number(
            names,
        )->0 by {
            if i < n {
                assert(rest[i] == names[i]);
            }
        }
        if forall|i: int| 0 <= i < names.len() ==> parse_unsigned(#[trigger] names[i], max) is None {
            assert forall|i: int| 0 <= i < rest.len() implies parse_unsigned(
                #[trigger] rest[i],
                max,
            ) is None by {
                assert(rest[i] == names[i]);
            }
        }
    }
}

/// A path below another ends with the segment, with one slash in front of it that is not written
/// twice; below nothing it is the segment.
pub proof fn law_paths_join_with_one_slash(base: Seq<char>, segment: Seq<char>)
    ensures
        path_with(Seq::empty(), segment) == segment,
        base.len() > 0 && base[base.len() - 1] != '/' ==> path_with(base, segment) == base + seq![
            '/',
        ] + segment,
        path_with(base + seq!['/'], segment) == base + seq!['/'] + segment,
        path_with(base + seq!['/'], segment) == url_of(base + seq!['/'], segment),
        base.len() > 0 ==> path_with(base, segment) == url_of(base, segment),
{
    reveal_strlit("/");
    assert("/"@ =~= seq!['/']);
    lemma_slash(base);
    lemma_slash(base + seq!['/']);
}

proof fn lemma_slash(s: Seq<char>)
    ensures
        has_suffix(s, "/"@) <==> s.len() > 0 && s.last() == '/',
{
    reveal_strlit("/");
    assert("/"@ =~= seq!['/']);
    if s.len() > 0 {
        assert(s.skip(s.len() - 1) =~= seq![s.last()]);
        if has_suffix(s, "/"@) {
            assert(s.skip(s.len() - 1)[0] == '/');
        }
    }
}

} // verus!
