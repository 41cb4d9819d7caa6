//! Tables that are directories of files: how they are read and written.

use std::str::FromStr;

use datafusion::common::GetExt;
use datafusion::datasource::file_format::file_compression_type::FileCompressionType;
use vstd::prelude::*;

use crate::file_stream;
use crate::file_stream::{
    largest_number, latest_offset_batch_id, law_largest_number_is_the_largest, url_of,
};
use crate::text;
use crate::text::{
    decimal, has_prefix, has_suffix, lowercase, parse_unsigned, same_ignoring_case, texts,
    uppercase,
};

verus! {

/// The inference of a schema that is the file format's own.
#[derive(Debug, Clone, Copy, PartialEq, Eq, Structural)]
pub struct DefaultSchemaInfer;

/// A layer of options; a later layer, and a later item, wins.
#[derive(Debug)]
pub enum OptionLayer {
    OptionList { items: Vec<(String, String)> },
    TablePropertyList { items: Vec<(String, String)> },
    /// A layer that holds no options by name.
    Other,
}

impl OptionLayer {
    /// The options of a layer.
    pub open spec fn options(self) -> Seq<(Seq<char>, Seq<char>)> {
        match self {
            OptionLayer::OptionList { items } => item_models(items@),
            OptionLayer::TablePropertyList { items } => item_models(items@),
            OptionLayer::Other => Seq::empty(),
        }
    }
}

/// Options as texts.
pub open spec fn item_models(items: Seq<(String, String)>) -> Seq<(Seq<char>, Seq<char>)> {
    items.map_values(|item: (String, String)| (item.0@, item.1@))
}

/// The value of the last option with a name, whatever its case.
pub open spec fn last_option(items: Seq<(Seq<char>, Seq<char>)>, name: Seq<char>) -> Option<Seq<char>>
    decreases items.len(),
{
    if items.len() == 0 {
        None
    } else if same_ignoring_case(items.last().0, name) {
        Some(items.last().1)
    } else {
        last_option(items.drop_last(), name)
    }
}

fn find_last_option(items: &Vec<(String, String)>, name: &str) -> (found: Option<usize>)
    ensures
        match found {
            Some(i) => i < items@.len() && last_option(item_models(items@), name@) == Some(
                items@[i as int].1@,
            ),
            None => last_option(item_models(items@), name@) is None,
        },
{
    let ghost models = item_models(items@);
    let mut n: usize = items.len();
    assert(models.take(n as int) =~= models);
    while n > 0
        invariant
            n <= items@.len(),
            models == item_models(items@),
            last_option(models, name@) == last_option(models.take(n as int), name@),
        decreases n,
    {
        assert(models.take(n as int).drop_last() =~= models.take(n - 1));
        assert(models.take(n as int).last() == models[n - 1]);
        if text::eq_ignore_ascii_case(items[n - 1].0.as_str(), name) {
            return Some(n - 1);
        }
        n = n - 1;
    }
    None
}

/// The largest number of new files in a batch, by the last layer that has the option as a number.
pub open spec fn files_limit(layers: Seq<OptionLayer>) -> Option<usize>
    decreases layers.len(),
{
    if layers.len() == 0 {
        None
    } else {
        match last_option(layers.last().options(), "maxFilesPerTrigger"@) {
            Some(value) => match parse_unsigned(value, usize::MAX as nat) {
                Some(n) => Some(n as usize),
                None => files_limit(layers.drop_last()),
            },
            None => files_limit(layers.drop_last()),
        }
    }
}

fn limit_of(items: &Vec<(String, String)>) -> (limit: Option<usize>)
    ensures
        match last_option(item_models(items@), "maxFilesPerTrigger"@) {
            Some(value) => match parse_unsigned(value, usize::MAX as nat) {
                Some(n) => limit == Some(n as usize),
                None => limit is None,
            },
            None => limit is None,
        },
{
    match find_last_option(items, "maxFilesPerTrigger") {
        Some(i) => match text::parse_u64_up_to(items[i].1.as_str(), usize::MAX as u64) {
            Some(n) => Some(n as usize),
            None => None,
        },
        None => None,
    }
}

/// The largest number of new files in a batch of a streaming read.
pub fn max_files_per_trigger(layers: &[OptionLayer], is_streaming: bool) -> (limit: Option<usize>)
    ensures
        limit == if is_streaming {
            files_limit(layers@)
        } else {
            None
        },
{
    if !is_streaming {
        return None;
    }
    let mut n: usize = layers.len();
    assert(layers@.take(n as int) =~= layers@);
    while n > 0
        invariant
            is_streaming,
            n <= layers@.len(),
            files_limit(layers@) == files_limit(layers@.take(n as int)),
        decreases n,
    {
        assert(layers@.take(n as int).drop_last() =~= layers@.take(n - 1));
        assert(layers@.take(n as int).last() == layers@[n - 1]);
        let limit = match &layers[n - 1] {
            OptionLayer::OptionList { items } => limit_of(items),
            OptionLayer::TablePropertyList { items } => limit_of(items),
            OptionLayer::Other => None,
        };
        if limit.is_some() {
            return limit;
        }
        n = n - 1;
    }
    None
}

/// How the columns of a table are found.
#[derive(Debug, Clone, Copy, PartialEq, Eq, Structural)]
pub enum SchemaChoice {
    /// By the schema that is given; its partition columns are found in the paths where asked.
    Given { discover_partitions: bool },
    /// From the files.
    Inferred,
}

/// How the columns of a table are found, given the number of columns and of partition columns
/// that the caller names.
pub fn schema_choice(columns: Option<usize>, partition_columns: usize) -> (choice: SchemaChoice)
    ensures
        choice == match columns {
            Some(n) if n > 0 => SchemaChoice::Given { discover_partitions: partition_columns == 0 },
            _ => SchemaChoice::Inferred,
        },
{
    match columns {
        Some(n) => {
            if n > 0 {
                SchemaChoice::Given { discover_partitions: partition_columns == 0 }
            } else {
                SchemaChoice::Inferred
            }
        },
        None => SchemaChoice::Inferred,
    }
}

/// The texts of lists, one after the other.
pub open spec fn flat_texts(lists: Seq<Vec<String>>) -> Seq<Seq<char>>
    decreases lists.len(),
{
    if lists.len() == 0 {
        Seq::empty()
    } else {
        flat_texts(lists.drop_last()) + texts(lists.last()@)
    }
}

/// Texts without those that came before.
pub open spec fn without_repeats(names: Seq<Seq<char>>) -> Seq<Seq<char>>
    decreases names.len(),
{
    if names.len() == 0 {
        Seq::empty()
    } else {
        let before = without_repeats(names.drop_last());
        if before.contains(names.last()) {
            before
        } else {
            before.push(names.last())
        }
    }
}

/// Whether a schema has a column, whatever the case of its name.
pub open spec fn has_column(columns: Seq<Seq<char>>, name: Seq<char>) -> bool {
    exists|i: int| 0 <= i < columns.len() && same_ignoring_case(#[trigger] columns[i], name)
}

/// The names that are columns.
pub open spec fn only_columns(names: Seq<Seq<char>>, columns: Seq<Seq<char>>) -> Seq<Seq<char>>
    decreases names.len(),
{
    if names.len() == 0 {
        Seq::empty()
    } else {
        let before = only_columns(names.drop_last(), columns);
        if has_column(columns, names.last()) {
            before.push(names.last())
        } else {
            before
        }
    }
}

fn contains(names: &[String], name: &str) -> (found: bool)
    ensures
        found == texts(names@).contains(name@),
{
    let ghost all = texts(names@);
    let mut i: usize = 0;
    while i < names.len()
        invariant
            i <= names@.len(),
            all == texts(names@),
            forall|k: int| 0 <= k < i ==> all[k] != name@,
        decreases names@.len() - i,
    {
        if text::str_eq(names[i].as_str(), name) {
            assert(all[i as int] == name@);
            return true;
        }
        i = i + 1;
    }
    false
}

fn is_column(columns: &[String], name: &str) -> (found: bool)
    ensures
        found == has_column(texts(columns@), name@),
{
    let ghost all = texts(columns@);
    let mut i: usize = 0;
    while i < columns.len()
        invariant
            i <= columns@.len(),
            all == texts(columns@),
            forall|k: int| 0 <= k < i ==> !same_ignoring_case(#[trigger] all[k], name@),
        decreases columns@.len() - i,
    {
        if text::eq_ignore_ascii_case(columns[i].as_str(), name) {
            assert(same_ignoring_case(all[i as int], name@));
            return true;
        }
        i = i + 1;
    }
    false
}

/// The partition columns found in the paths of each location: each once, in the order in which
/// they were found, and only those that the schema has.
pub fn discovered_partitions(found: &[Vec<String>], columns: &[String]) -> (names: Vec<String>)
    ensures
        texts(names@) == only_columns(
            without_repeats(flat_texts(found@)),
            texts(columns@),
        ),
{
    let mut discovered: Vec<String> = Vec::new();
    let mut i: usize = 0;
    proof {
        assert(found@.take(0) =~= Seq::<Vec<String>>::empty());
        assert(texts(discovered@) =~= Seq::<Seq<char>>::empty());
        assert(without_repeats(flat_texts(found@.take(0))) =~= Seq::<Seq<char>>::empty());
    }
    while i < found.len()
        invariant
            i <= found@.len(),
            texts(discovered@) == without_repeats(flat_texts(found@.take(i as int))),
        decreases found@.len() - i,
    {
        let ghost before = flat_texts(found@.take(i as int));
        let ghost here = texts(found@[i as int]@);
        let mut k: usize = 0;
        proof {
            assert(found@.take(i + 1).drop_last() =~= found@.take(i as int));
            assert(found@.take(i + 1).last() == found@[i as int]);
            assert(before + here.take(0) =~= before);
        }
        while k < found[i].len()
            invariant
                i < found@.len(),
                k <= found@[i as int]@.len(),
                here == texts(found@[i as int]@),
                texts(discovered@) == without_repeats(before + here.take(k as int)),
            decreases found@[i as int]@.len() - k,
        {
            let name = found[i][k].as_str();
            let ghost known = texts(discovered@);
            proof {
                let more = before + here.take(k + 1);
                assert(more.drop_last() =~= before + here.take(k as int));
                assert(more.last() == name@);
            }
            if !contains(discovered.as_slice(), name) {
                discovered.push(name.to_owned());
                assert(texts(discovered@) =~= known.push(name@));
            }
            k = k + 1;
        }
        assert(here.take(k as int) =~= here);
        i = i + 1;
    }
    assert(found@.take(i as int) =~= found@);
    let ghost all = texts(discovered@);
    let ghost schema = texts(columns@);
    let mut names: Vec<String> = Vec::new();
    let mut j: usize = 0;
    proof {
        assert(all.take(0) =~= Seq::<Seq<char>>::empty());
        assert(texts(names@) =~= Seq::<Seq<char>>::empty());
    }
    while j < discovered.len()
        invariant
            j <= discovered@.len(),
            all == texts(discovered@),
            schema == texts(columns@),
            texts(names@) == only_columns(all.take(j as int), schema),
        decreases discovered@.len() - j,
    {
        let ghost kept = texts(names@);
        let name = discovered[j].as_str();
        proof {
            assert(all.take(j + 1).drop_last() =~= all.take(j as int));
            assert(all.take(j + 1).last() == name@);
        }
        if is_column(columns, name) {
            names.push(name.to_owned());
            assert(texts(names@) =~= kept.push(name@));
        }
        j = j + 1;
    }
    assert(all.take(j as int) =~= all);
    names
}

/// The extension of compressed files, where it differs from that of files which are not.
pub fn compressed_extension(with_compression: Option<String>, plain: &str) -> (extension: Option<
    String,
>)
    ensures
        match (with_compression, extension) {
            (Some(ext), Some(e)) => ext@ != plain@ && e@ == ext@,
            (Some(ext), None) => ext@ == plain@,
            (None, e) => e is None,
        },
{
    match with_compression {
        Some(ext) => {
            if text::str_eq(ext.as_str(), plain) {
                None
            } else {
                Some(ext)
            }
        },
        None => None,
    }
}

/// A location to read: the location itself, that of its object store, and the paths of the files
/// that its commit log names, where it has one.
#[derive(Debug)]
pub struct LoggedBase {
    pub url: String,
    pub store_url: String,
    pub committed: Option<Vec<String>>,
}

/// The locations that are read for a base: those of its committed files, else its own.
pub open spec fn base_urls(base: LoggedBase) -> Seq<Seq<char>> {
    match base.committed {
        Some(paths) => texts(paths@).map_values(|p: Seq<char>| url_of(base.store_url@, p)),
        None => seq![base.url@],
    }
}

/// The locations that are read for bases.
pub open spec fn all_urls(bases: Seq<LoggedBase>) -> Seq<Seq<char>>
    decreases bases.len(),
{
    if bases.len() == 0 {
        Seq::empty()
    } else {
        all_urls(bases.drop_last()) + base_urls(bases.last())
    }
}

/// Whether some base has a commit log.
pub open spec fn any_logged(bases: Seq<LoggedBase>) -> bool {
    exists|i: int| 0 <= i < bases.len() && (#[trigger] bases[i]).committed is Some
}

/// The locations to read where some base has a commit log: the committed files of those that have
/// one, and the others themselves. Nothing where none has one.
pub fn committed_urls_if_logged(bases: &[LoggedBase]) -> (urls: Option<Vec<String>>)
    ensures
        match urls {
            Some(found) => any_logged(bases@) && texts(found@) == all_urls(bases@),
            None => !any_logged(bases@),
        },
{
    let mut urls: Vec<String> = Vec::new();
    let mut logged = false;
    let mut i: usize = 0;
    proof {
        assert(bases@.take(0) =~= Seq::<LoggedBase>::empty());
        assert(texts(urls@) =~= Seq::<Seq<char>>::empty());
    }
    while i < bases.len()
        invariant
            i <= bases@.len(),
            texts(urls@) == all_urls(bases@.take(i as int)),
            logged == exists|k: int| 0 <= k < i && (#[trigger] bases@[k]).committed is Some,
        decreases bases@.len() - i,
    {
        let base = &bases[i];
        let ghost before = texts(urls@);
        proof {
            assert(bases@.take(i + 1).drop_last() =~= bases@.take(i as int));
            assert(bases@.take(i + 1).last() == *base);
        }
        match &base.committed {
            Some(paths) => {
                logged = true;
                assert(bases@[i as int].committed is Some);
                let ghost own = base_urls(*base);
                let mut k: usize = 0;
                assert(before + own.take(0) =~= before);
                while k < paths.len()
                    invariant
                        k <= paths@.len(),
                        own == texts(paths@).map_values(
                            |p: Seq<char>| url_of(base.store_url@, p),
                        ),
                        texts(urls@) == before + own.take(k as int),
                    decreases paths@.len() - k,
                {
                    let ghost known = texts(urls@);
                    let url = file_stream::object_url(base.store_url.as_str(), paths[k].as_str());
                    urls.push(url);
                    proof {
                        assert(own[k as int] == url@);
                        assert(texts(urls@) =~= known.push(url@));
                        assert(before + own.take(k + 1) =~= (before + own.take(k as int)).push(
                            url@,
                        ));
                    }
                    k = k + 1;
                }
                assert(own.take(k as int) =~= own);
            },
            None => {
                urls.push(base.url.as_str().to_owned());
                assert(texts(urls@) =~= before + seq![base.url@]);
            },
        }
        i = i + 1;
    }
    assert(bases@.take(i as int) =~= bases@);
    if logged {
        Some(urls)
    } else {
        None
    }
}

/// A column that files are partitioned by, and whether by a function of its values.
#[derive(Debug)]
pub struct PartitionField {
    pub column: String,
    pub transformed: bool,
}

/// What is asked of a writer.
#[derive(Debug)]
pub struct WriteRequest {
    pub path: Option<String>,
    pub bucketed: bool,
    pub partition_by: Vec<PartitionField>,
    /// Whether the input is a stream of flow events.
    pub streaming: bool,
    /// The number of partitions of the input.
    pub partitions: usize,
    /// The number of the batch to commit, where there is a checkpoint.
    pub next_batch: Option<u64>,
}

/// Why a writer is refused.
#[derive(Debug, Clone, Copy, PartialEq, Eq, Structural)]
pub enum WriteError {
    MissingPath,
    Bucketing,
    PartitionTransforms,
}

impl WriteError {
    /// The message for the user.
    pub open spec fn text(self) -> Seq<char> {
        match self {
            WriteError::MissingPath => "missing path in listing table options"@,
            WriteError::Bucketing => "bucketing for writing listing table format"@,
            WriteError::PartitionTransforms =>
                "partition transforms for writing listing table format"@,
        }
    }

    /// The message for the user.
    pub fn message(&self) -> (out: String)
        ensures
            out@ == self.text(),
    {
        match self {
            WriteError::MissingPath => "missing path in listing table options".to_owned(),
            WriteError::Bucketing => "bucketing for writing listing table format".to_owned(),
            WriteError::PartitionTransforms => {
                "partition transforms for writing listing table format".to_owned()
            },
        }
    }
}

/// What follows the writing of the files.
#[derive(Debug, Clone, Copy, PartialEq, Eq, Structural)]
pub enum WriteEnd {
    /// Nothing: the number of rows is the result.
    Count,
    /// The rows' number is dropped, as a streaming query expects no rows.
    Drain,
    /// The files of a batch are recorded in the commit log.
    Commit { batch_id: u64 },
}

/// How files are written.
#[derive(Debug)]
pub struct WritePlan {
    /// The directory of the table, with a delimiter at its end.
    pub base: String,
    /// The directory of the files, with a delimiter at its end.
    pub target: String,
    pub partition_columns: Vec<String>,
    /// Whether the flow events of the input are decoded.
    pub decode: bool,
    /// The number of sinks that write side by side, one for each partition; none where one sink
    /// writes everything.
    pub parallel_sinks: Option<usize>,
    pub end: WriteEnd,
}

/// A path with a delimiter at its end.
pub open spec fn as_directory(path: Seq<char>) -> Seq<char> {
    if has_suffix(path, "/"@) {
        path
    } else {
        path + "/"@
    }
}

/// The error of a request.
pub open spec fn write_error(request: WriteRequest) -> Option<WriteError> {
    if request.path is None {
        Some(WriteError::MissingPath)
    } else if request.bucketed {
        Some(WriteError::Bucketing)
    } else if exists|i: int|
        0 <= i < request.partition_by@.len() && (#[trigger] request.partition_by@[i]).transformed {
        Some(WriteError::PartitionTransforms)
    } else {
        None
    }
}

/// The batch whose files a write commits: there is one for a stream with a checkpoint.
pub open spec fn commit_batch(request: WriteRequest) -> Option<u64> {
    if request.streaming {
        request.next_batch
    } else {
        None
    }
}

/// Decides how files are written. With a commit log, the files of a batch go into a directory of
/// their own, named by the batch.
pub fn plan_write(request: &WriteRequest) -> (result: Result<WritePlan, WriteError>)
    ensures
        match result {
            Ok(plan) => {
                let base = as_directory(request.path->0@);
                &&& write_error(*request) is None
                &&& plan.base@ == base
                &&& plan.target@ == match commit_batch(*request) {
                    Some(batch_id) => base + decimal(batch_id as nat) + "/"@,
                    None => base,
                }
                &&& texts(plan.partition_columns@) == request.partition_by@.map_values(
                    |f: PartitionField| f.column@,
                )
                &&& plan.decode == request.streaming
                &&& plan.parallel_sinks == if request.streaming && request.partitions > 1 {
                    Some(request.partitions)
                } else {
                    None
                }
                &&& plan.end == match commit_batch(*request) {
                    Some(batch_id) => WriteEnd::Commit { batch_id },
                    None => if request.streaming {
                        WriteEnd::Drain
                    } else {
                        WriteEnd::Count
                    },
                }
            },
            Err(e) => write_error(*request) == Some(e),
        },
{
    let path = match &request.path {
        Some(path) => path,
        None => {
            return Err(WriteError::MissingPath);
        },
    };
    if request.bucketed {
        return Err(WriteError::Bucketing);
    }
    let ghost columns = request.partition_by@.map_values(|f: PartitionField| f.column@);
    let mut partition_columns: Vec<String> = Vec::new();
    let mut i: usize = 0;
    assert(texts(partition_columns@) =~= columns.take(0));
    while i < request.partition_by.len()
        invariant
            i <= request.partition_by@.len(),
            request.path is Some,
            !request.bucketed,
            columns == request.partition_by@.map_values(|f: PartitionField| f.column@),
            texts(partition_columns@) == columns.take(i as int),
            forall|k: int| 0 <= k < i ==> !(#[trigger] request.partition_by@[k]).transformed,
        decreases request.partition_by@.len() - i,
    {
        let field = &request.partition_by[i];
        if field.transformed {
            assert(request.partition_by@[i as int].transformed);
            return Err(WriteError::PartitionTransforms);
        }
        let ghost before = texts(partition_columns@);
        partition_columns.push(field.column.as_str().to_owned());
        assert(texts(partition_columns@) =~= before.push(field.column@));
        assert(columns.take(i + 1) =~= columns.take(i as int).push(columns[i as int]));
        i = i + 1;
    }
    assert(columns.take(i as int) =~= columns);
    let mut base = path.as_str().to_owned();
    if !text::ends_with(path.as_str(), "/") {
        base.append("/");
    }
    let mut target = base.as_str().to_owned();
    let batch: Option<u64> = if request.streaming {
        request.next_batch
    } else {
        None
    };
    match batch {
        Some(batch_id) => {
            text::push_decimal(&mut target, batch_id);
            target.append("/");
        },
        None => {},
    }
    let parallel_sinks: Option<usize> = if request.streaming && request.partitions > 1 {
        Some(request.partitions)
    } else {
        None
    };
    let end = match batch {
        Some(batch_id) => WriteEnd::Commit { batch_id },
        None => {
            if request.streaming {
                WriteEnd::Drain
            } else {
                WriteEnd::Count
            }
        },
    };
    Ok(
        WritePlan {
            base,
            target,
            partition_columns,
            decode: request.streaming,
            parallel_sinks,
            end,
        },
    )
}

/// A text without a dot at its start.
pub open spec fn without_dot(s: Seq<char>) -> Seq<char> {
    if has_prefix(s, "."@) {
        s.skip("."@.len() as int)
    } else {
        s
    }
}

fn strip_dot(s: &str) -> (out: String)
    ensures
        out@ == without_dot(s@),
{
    match text::strip_prefix(s, ".") {
        Some(rest) => rest,
        None => s.to_owned(),
    }
}

/// Whether an extension is that of Parquet files.
pub open spec fn is_parquet(extension: Seq<char>) -> bool {
    extension == ".parquet"@ || extension == "parquet"@
}

/// Whether an extension is that of Parquet files.
pub fn is_parquet_extension(extension: &str) -> (parquet: bool)
    ensures
        parquet == is_parquet(extension@),
{
    text::str_eq(extension, ".parquet") || text::str_eq(extension, "parquet")
}

/// The compression of Parquet files as it was asked for, in the form in which its name and level
/// are told apart.
pub fn compression_option(compression: &str) -> (out: String)
    ensures
        out@ == lowercase(without_dot(compression@)),
{
    let bare = strip_dot(compression);
    text::to_lowercase(bare.as_str())
}

/// The extension that a compression has by its name; nothing where the name is not known.
pub open spec fn named_extension(name: Seq<char>) -> Option<Seq<char>> {
    let upper = uppercase(name);
    if upper == "GZIP"@ || upper == "GZ"@ {
        Some(".gz"@)
    } else if upper == "BZIP2"@ || upper == "BZ2"@ {
        Some(".bz2"@)
    } else if upper == "XZ"@ {
        Some(".xz"@)
    } else if upper == "ZST"@ || upper == "ZSTD"@ {
        Some(".zst"@)
    } else if upper == ""@ || upper == "UNCOMPRESSED"@ {
        Some(""@)
    } else {
        None
    }
}

/// `FileCompressionType::from_str` of `datafusion`, and `get_ext` of what it gives: the extensions
/// of gzip, bzip2, xz and zstd and the empty one of no compression, by their names in upper case.
/// Other names are refused.
#[verifier::external_body]
fn compression_extension(name: &str) -> (extension: Option<String>)
    ensures
        match extension {
            Some(e) => named_extension(name@) == Some(e@),
            None => named_extension(name@) is None,
        },
{
    FileCompressionType::from_str(name).ok().map(|c| c.get_ext())
}

/// The extension of Parquet files under a compression.
pub open spec fn parquet_extension_of(extension: Seq<char>, compression: Seq<char>) -> Seq<char> {
    without_dot(
        match named_extension(compression) {
            Some(e) => e,
            None => compression,
        },
    ) + "."@ + without_dot(extension)
}

/// The extension of Parquet files under a compression: that of the compression, where it is one
/// with an extension of its own, else its name, before the format's.
pub fn parquet_extension(extension: &str, compression: &str) -> (out: String)
    ensures
        out@ == parquet_extension_of(extension@, compression@),
{
    let mut out = match compression_extension(compression) {
        Some(own) => strip_dot(own.as_str()),
        None => strip_dot(compression),
    };
    out.append(".");
    let bare = strip_dot(extension);
    out.append(bare.as_str());
    out
}

/// The extension of the files that are written. `compressed` is the format's own for its
/// compression, where it has one; `parquet_compression` names that of Parquet files, in any case and
/// without a level.
pub fn file_extension(
    plain: &str,
    has_compression: bool,
    compressed: Option<String>,
    parquet_compression: Option<String>,
) -> (extension: String)
    ensures
        extension@ == if has_compression {
            match compressed {
                Some(ext) => ext@,
                None => plain@,
            }
        } else {
            match parquet_compression {
                Some(compression) => if is_parquet(plain@) {
                    parquet_extension_of(plain@, lowercase(without_dot(compression@)))
                } else {
                    plain@
                },
                None => plain@,
            }
        },
{
    if has_compression {
        return match compressed {
            Some(ext) => ext,
            None => plain.to_owned(),
        };
    }
    match parquet_compression {
        Some(compression) => {
            if is_parquet_extension(plain) {
                let name = compression_option(compression.as_str());
                parquet_extension(plain, name.as_str())
            } else {
                plain.to_owned()
            }
        },
        None => plain.to_owned(),
    }
}

/// The number of the next batch of a streaming query, given the names in its log of offsets.
pub open spec fn batch_after(names: Seq<Seq<char>>) -> int {
    match largest_number(names) {
        Some(n) => n as int + 1,
        None => 0,
    }
}

/// The number of the next batch of a streaming query, given the names in its log of offsets: one
/// more than the largest, or none.
pub fn next_batch_id(names: &[String]) -> (batch_id: u64)
    requires
        batch_after(texts(names@)) <= u64::MAX,
    ensures
        batch_id == batch_after(texts(names@)),
{
    match latest_offset_batch_id(names) {
        Some(n) => n + 1,
        None => 0,
    }
}

/// Two batches never write into the same directory of a table.
pub proof fn law_batches_have_directories_of_their_own(base: Seq<char>, a: u64, b: u64)
    requires
        a != b,
    ensures
        base + decimal(a as nat) + "/"@ != base + decimal(b as nat) + "/"@,
{
    let x = base + decimal(a as nat) + "/"@;
    let y = base + decimal(b as nat) + "/"@;
    if x == y {
        let n = base.len() as int;
        let m = "/"@.len() as int;
        assert(x.subrange(n, x.len() - m) =~= decimal(a as nat));
        assert(y.subrange(n, y.len() - m) =~= decimal(b as nat));
        text::lemma_decimal_injective(a as nat, b as nat);
    }
}

/// A read of bases of which some have commit logs reads no file below those but committed ones.
pub proof fn law_only_committed_files_are_read(bases: Seq<LoggedBase>, url: Seq<char>)
    requires
        all_urls(bases).contains(url),
    ensures
        exists|i: int|
            0 <= i < bases.len() && base_urls(#[trigger] bases[i]).contains(url),
    decreases bases.len(),
{
    if bases.len() > 0 {
        let before = all_urls(bases.drop_last());
        let own = base_urls(bases.last());
        let i = (before + own).index_of(url);
        if i < before.len() {
            assert(before[i] == url);
            law_only_committed_files_are_read(bases.drop_last(), url);
            let k = choose|k: int|
                0 <= k < bases.drop_last().len() && base_urls(
                    #[trigger] bases.drop_last()[k],
                ).contains(url);
            assert(bases[k] == bases.drop_last()[k]);
        } else {
            assert(own[i - before.len()] == url);
            assert(base_urls(bases[bases.len() - 1]).contains(url));
        }
    }
}

/// Of the options with a name, whatever the case of its letters, the last counts.
pub proof fn law_last_option_counts(items: Seq<(Seq<char>, Seq<char>)>, name: Seq<char>)
    ensures
        last_option(items, name) is None <==> forall|i: int|
            0 <= i < items.len() ==> !same_ignoring_case((#[trigger] items[i]).0, name),
        last_option(items, name) matches Some(value) ==> exists|i: int|
            {
                &&& 0 <= i < items.len()
                &&& same_ignoring_case((#[trigger] items[i]).0, name)
                &&& items[i].1 == value
                &&& forall|j: int|
                    i < j < items.len() ==> !same_ignoring_case((#[trigger] items[j]).0, name)
            },
    decreases items.len(),
{
    if items.len() > 0 {
        let rest = items.drop_last();
        let n = items.len() - 1;
        law_last_option_counts(rest, name);
        if same_ignoring_case(items.last().0, name) {
            assert(same_ignoring_case(items[n].0, name) && items[n].1 == items.last().1);
        } else {
            if last_option(rest, name) is Some {
                let i = choose|i: int|
                    {
                        &&& 0 <= i < rest.len()
                        &&& same_ignoring_case((#[trigger] rest[i]).0, name)
                        &&& rest[i].1 == last_option(rest, name)->0
                        &&& forall|j: int|
                            i < j < rest.len() ==> !same_ignoring_case((#[trigger] rest[j]).0, name)
                    };
                assert(items[i] == rest[i]);
                assert forall|j: int| i < j < items.len() implies !same_ignoring_case(
                    (#[trigger] items[j]).0,
                    name,
                ) by {
                    if j < n {
                        assert(items[j] == rest[j]);
                    }
                }
            } else {
                assert forall|i: int| 0 <= i < items.len() implies !same_ignoring_case(
                    (#[trigger] items[i]).0,
                    name,
                ) by {
                    if i < n {
                        assert(items[i] == rest[i]);
                    }
                }
            }
        }
    }
}

/// What one layer of options says of the number of files.
pub open spec fn layer_limit(layer: OptionLayer) -> Option<nat> {
    match last_option(layer.options(), "maxFilesPerTrigger"@) {
        Some(value) => parse_unsigned(value, usize::MAX as nat),
        None => None,
    }
}

/// The last layer that gives a number limits the files; one that gives none leaves it to those before.
pub proof fn law_last_layer_limits_the_files(layers: Seq<OptionLayer>)
    ensures
        files_limit(layers) is None <==> forall|i: int|
            0 <= i < layers.len() ==> layer_limit(#[trigger] layers[i]) is None,
        files_limit(layers) matches Some(n) ==> exists|i: int|
            {
                &&& 0 <= i < layers.len()
                &&& layer_limit(#[trigger] layers[i]) == Some(n as nat)
                &&& forall|j: int|
                    i < j < layers.len() ==> layer_limit(#[trigger] layers[j]) is None
            },
    decreases layers.len(),
{
    if layers.len() > 0 {
        let rest = layers.drop_last();
        let n = layers.len() - 1;
        law_last_layer_limits_the_files(rest);
        if layer_limit(layers.last()) is Some {
            assert(layer_limit(layers[n]) == Some(files_limit(layers)->0 as nat));
        } else {
            assert(files_limit(layers) == files_limit(rest));
            if files_limit(rest) is Some {
                let i = choose|i: int|
                    {
                        &&& 0 <= i < rest.len()
                        &&& layer_limit(#[trigger] rest[i]) == Some(files_limit(rest)->0 as nat)
                        &&& forall|j: int|
                            i < j < rest.len() ==> layer_limit(#[trigger] rest[j]) is None
                    };
                assert(layers[i] == rest[i]);
                assert forall|j: int| i < j < layers.len() implies layer_limit(
                    #[trigger] layers[j],
                ) is None by {
                    if j < n {
                        assert(layers[j] == rest[j]);
                    }
                }
            } else {
                assert forall|i: int| 0 <= i < layers.len() implies layer_limit(
                    #[trigger] layers[i],
                ) is None by {
                    if i < n {
                        assert(layers[i] == rest[i]);
                    }
                }
            }
        }
    }
}

/// Without repeats each name is there once, in the order in which the names first came.
pub proof fn law_names_are_kept_once(names: Seq<Seq<char>>, name: Seq<char>)
    ensures
        without_repeats(names).no_duplicates(),
        without_repeats(names).contains(name) <==> names.contains(name),
        without_repeats(names.push(name)) == if names.contains(name) {
            without_repeats(names)
        } else {
            without_repeats(names).push(name)
        },
    decreases names.len(),
{
    assert(names.push(name).drop_last() =~= names);
    if names.len() > 0 {
        let rest = names.drop_last();
        let before = without_repeats(rest);
        let all = without_repeats(names);
        let last = names.last();
        law_names_are_kept_once(rest, name);
        law_names_are_kept_once(rest, last);
        assert(names.contains(name) <==> rest.contains(name) || name == last) by {
            if rest.contains(name) {
                let i = choose|i: int| 0 <= i < rest.len() && rest[i] == name;
                assert(names[i] == name);
            }
            if name == last {
                assert(names[names.len() - 1] == name);
            }
            if names.contains(name) && name != last {
                let i = choose|i: int| 0 <= i < names.len() && names[i] == name;
                assert(rest[i] == name);
            }
        }
        if !before.contains(last) {
            assert(all == before.push(last));
            assert(all.contains(name) <==> before.contains(name) || name == last) by {
                if before.contains(name) {
                    let i = choose|i: int| 0 <= i < before.len() && before[i] == name;
                    assert(all[i] == name);
                }
                if name == last {
                    assert(all[before.len() as int] == name);
                }
                if all.contains(name) && name != last {
                    let i = choose|i: int| 0 <= i < all.len() && all[i] == name;
                    assert(before[i] == name);
                }
            }
        }
    }
}

/// The partitions of a table are the discovered names that are columns of it, whatever the case of
/// their letters, in their order.
pub proof fn law_partitions_are_columns(names: Seq<Seq<char>>, columns: Seq<Seq<char>>)
    ensures
        only_columns(names, columns) == names.filter(
            |n: Seq<char>|
                exists|i: int|
                    0 <= i < columns.len() && same_ignoring_case(#[trigger] columns[i], n),
        ),
    decreases names.len(),
{
    reveal(Seq::filter);
    if names.len() > 0 {
        law_partitions_are_columns(names.drop_last(), columns);
    }
}

/// The names of several lists stand one list after the other.
pub proof fn law_lists_follow_each_other(lists: Seq<Vec<String>>, list: Vec<String>)
    ensures
        flat_texts(lists.push(list)) == flat_texts(lists) + texts(list@),
        flat_texts(seq![list]) == texts(list@),
{
    assert(lists.push(list).drop_last() =~= lists);
    assert(seq![list].drop_last() =~= Seq::<Vec<String>>::empty());
    assert(flat_texts(Seq::<Vec<String>>::empty()) + texts(list@) =~= texts(list@));
}

/// Every base is read: what a log of a base commits, under the address of its store, and the base
/// itself where it has no log.
pub proof fn law_every_base_is_read(bases: Seq<LoggedBase>, i: int)
    requires
        0 <= i < bases.len(),
    ensures
        bases[i].committed is None ==> all_urls(bases).contains(bases[i].url@),
        bases[i].committed matches Some(paths) ==> forall|k: int|
            0 <= k < paths@.len() ==> all_urls(bases).contains(
                url_of(bases[i].store_url@, (#[trigger] paths@[k])@),
            ),
    decreases bases.len(),
{
    let rest = bases.drop_last();
    let before = all_urls(rest);
    let last = base_urls(bases.last());
    let all = all_urls(bases);
    assert(all == before + last);
    if i < rest.len() {
        assert(rest[i] == bases[i]);
        law_every_base_is_read(rest, i);
        assert forall|u: Seq<char>| #[trigger] before.contains(u) implies all.contains(u) by {
            let k = choose|k: int| 0 <= k < before.len() && before[k] == u;
            assert(all[k] == u);
        }
        if bases[i].committed is Some {
            let paths = bases[i].committed->0;
            assert forall|k: int| 0 <= k < paths@.len() implies all.contains(
                url_of(bases[i].store_url@, (#[trigger] paths@[k])@),
            ) by {
                assert(before.contains(url_of(bases[i].store_url@, paths@[k]@)));
            }
        }
    } else {
        match bases[i].committed {
            Some(paths) => {
                assert forall|k: int| 0 <= k < paths@.len() implies all.contains(
                    url_of(bases[i].store_url@, (#[trigger] paths@[k])@),
                ) by {
                    assert(texts(paths@)[k] == paths@[k]@);
                    assert(last[k] == url_of(bases[i].store_url@, paths@[k]@));
                    assert(all[before.len() + k] == last[k]);
                }
            },
            None => {
                assert(last[0] == bases[i].url@);
                assert(all[before.len() as int] == last[0]);
            },
        }
    }
}

/// A write needs a path, and neither buckets nor transforms of partitions; it is told the first that
/// is wrong.
pub proof fn law_writes_are_refused(request: WriteRequest)
    ensures
        ({
            let transforms = exists|i: int|
                0 <= i < request.partition_by@.len() && (
                #[trigger] request.partition_by@[i]).transformed;
            &&& write_error(request) == Some(WriteError::MissingPath) <==> request.path is None
            &&& write_error(request) == Some(WriteError::Bucketing) <==> request.path is Some
                && request.bucketed
            &&& write_error(request) == Some(WriteError::PartitionTransforms) <==> request.path
                is Some && !request.bucketed && transforms
            &&& write_error(request) is None <==> request.path is Some && !request.bucketed
                && !transforms
            &&& commit_batch(request) is Some <==> request.streaming && request.next_batch is Some
            &&& commit_batch(request) is Some ==> commit_batch(request) == request.next_batch
        }),
{
}

/// A directory ends with a slash, and one that does stays as it is.
pub proof fn law_directories_end_with_a_slash(path: Seq<char>)
    ensures
        as_directory(path).len() > 0,
        as_directory(path).last() == '/',
        as_directory(as_directory(path)) == as_directory(path),
        as_directory(path) == path || as_directory(path) == path + seq!['/'],
        path.len() > 0 && path.last() == '/' ==> as_directory(path) == path,
{
    reveal_strlit("/");
    assert("/"@ =~= seq!['/']);
    let d = as_directory(path);
    if path.len() > 0 {
        assert(path.skip(path.len() - 1) =~= seq![path.last()]);
        if has_suffix(path, "/"@) {
            assert(path.skip(path.len() - 1)[0] == '/');
        }
    }
    assert(d.skip(d.len() - 1) =~= seq![d.last()]);
}

/// A new batch has a number that is larger than that of every batch there is.
pub proof fn law_new_batches_have_new_numbers(names: Seq<Seq<char>>, i: int)
    requires
        0 <= i < names.len(),
    ensures
        parse_unsigned(names[i], u64::MAX as nat) matches Some(n) ==> n < batch_after(names),
        batch_after(names) == 0 || exists|k: int|
            0 <= k < names.len() && parse_unsigned(#[trigger] names[k], u64::MAX as nat) == Some(
                (batch_after(names) - 1) as nat,
            ),
{
    law_largest_number_is_the_largest(names);
}

/// The extension of a compressed Parquet file has that of the compression in front, each without its
/// own leading point, with one point between them.
pub proof fn law_compression_stands_before_parquet(extension: Seq<char>, compression: Seq<char>)
    requires
        extension.len() == 0 || extension[0] != '.',
        compression.len() == 0 || compression[0] != '.',
        named_extension(compression) is None,
    ensures
        parquet_extension_of(extension, compression) == compression + seq!['.'] + extension,
        parquet_extension_of(seq!['.'] + extension, compression) == compression + seq!['.']
            + extension,
{
    reveal_strlit(".");
    assert("."@ =~= seq!['.']);
    let dotted = seq!['.'] + extension;
    assert(dotted.take(1) =~= seq!['.']);
    assert(dotted.skip(1) =~= extension);
    if extension.len() > 0 {
        assert(extension.take(1)[0] == extension[0]);
    }
    if compression.len() > 0 {
        assert(compression.take(1)[0] == compression[0]);
    }
}

} // verus!
