//! Where a streaming checkpoint is kept, and how its objects are named and committed.
//!
//! Every artifact of a checkpoint is one object, and writing the committed object is the commit:
//! object stores have no atomic rename, but a write is all or nothing.

use object_store::path::{Path, PathPart};
use url::Url;
use vstd::prelude::*;
use vstd::string::*;

use crate::text;
use crate::text::{has_prefix, last_position, occurs, split_on, texts};

verus! {

/// The scheme, the authority and the path of the URL that `url::Url::parse` reads, or why it refuses
/// the text.
pub uninterp spec fn url_parts(location: Seq<char>) -> Result<
    (Seq<char>, Seq<char>, Seq<char>),
    Seq<char>,
>;

/// The scheme, the authority and the path of a URL.
#[derive(Debug)]
pub struct UrlParts {
    pub scheme: String,
    pub authority: String,
    pub path: String,
}

impl UrlParts {
    /// The scheme, the authority and the path.
    pub open spec fn parts(self) -> (Seq<char>, Seq<char>, Seq<char>) {
        (self.scheme@, self.authority@, self.path@)
    }
}

/// `url::Url::parse` and the accessors `scheme`, `authority` and `path` of its result, or its error
/// in words.
#[verifier::external_body]
fn parse_url(location: &str) -> (parts: Result<UrlParts, String>)
    ensures
        match parts {
            Ok(p) => url_parts(location@) matches Ok(parts) && parts == p.parts(),
            Err(reason) => url_parts(location@) matches Err(e) && e == reason@,
        },
{
    let url = Url::parse(location).map_err(|e| e.to_string())?;
    Ok(
        UrlParts {
            scheme: url.scheme().to_owned(),
            authority: url.authority().to_owned(),
            path: url.path().to_owned(),
        },
    )
}

/// The store path, relative to the root of the file system, that
/// `object_store::path::Path::from_absolute_path` gives for a file path, or why it refuses the path.
/// Which paths are absolute, and how they are taken apart, is up to the platform that the library is
/// built for.
pub uninterp spec fn absolute_store_path(location: Seq<char>) -> Result<Seq<char>, Seq<char>>;

/// `object_store::path::Path::from_absolute_path`, or its error in words.
#[verifier::external_body]
fn store_path_of_file(location: &str) -> (path: Result<String, String>)
    ensures
        match path {
            Ok(p) => absolute_store_path(location@) matches Ok(path) && path == p@,
            Err(reason) => absolute_store_path(location@) matches Err(e) && e == reason@,
        },
{
    Path::from_absolute_path(location).map(String::from).map_err(|e| e.to_string())
}

/// The encoded form that `object_store::path::PathPart` gives a path segment.
pub uninterp spec fn encoded_segment(segment: Seq<char>) -> Seq<char>;

/// Whether a character stands for itself in a path segment.
pub open spec fn is_segment_char(c: char) -> bool {
    ||| 'a' <= c <= 'z'
    ||| 'A' <= c <= 'Z'
    ||| '0' <= c <= '9'
    ||| c == '-'
    ||| c == '_'
    ||| c == '='
    ||| c == ':'
}

/// `PathPart::from`: a segment with the characters that object stores advise against percent
/// encoded. Letters, digits and the marks `-`, `_`, `=` and `:` stand for themselves, and a
/// segment that is not empty has an encoded form that is not empty.
#[verifier::external_body]
fn encode_segment(segment: &str) -> (encoded: String)
    ensures
        encoded@ == encoded_segment(segment@),
        (forall|i: int| 0 <= i < segment@.len() ==> is_segment_char(#[trigger] segment@[i]))
            ==> encoded@ == segment@,
        segment@.len() > 0 ==> encoded@.len() > 0,
{
    PathPart::from(segment).as_ref().to_owned()
}

/// The store that holds a checkpoint.
#[derive(Debug)]
pub enum StoreKind {
    /// The local file system.
    Local,
    /// Amazon S3, through a client that is shared by all checkpoints with the same key.
    S3 { client_key: String },
    /// Google Cloud Storage, through a client that is shared by all checkpoints with the same key.
    Gcs { client_key: String },
}

/// The store that holds a checkpoint.
#[verifier::ext_equal]
pub enum StoreKindModel {
    Local,
    S3 { client_key: Seq<char> },
    Gcs { client_key: Seq<char> },
}

impl View for StoreKind {
    type V = StoreKindModel;

    open spec fn view(&self) -> StoreKindModel {
        match self {
            StoreKind::Local => StoreKindModel::Local,
            StoreKind::S3 { client_key } => StoreKindModel::S3 { client_key: client_key@ },
            StoreKind::Gcs { client_key } => StoreKindModel::Gcs { client_key: client_key@ },
        }
    }
}

/// Why a checkpoint location is refused.
#[derive(Debug)]
pub enum CheckpointError {
    InvalidPath { location: String, reason: String },
    InvalidUrl { location: String, reason: String },
    UnsupportedScheme { scheme: String },
}

impl CheckpointError {
    /// The message for the user.
    pub open spec fn text(self) -> Seq<char> {
        match self {
            CheckpointError::InvalidPath { location, reason } => "checkpoint path "@ + location@
                + ": "@ + reason@,
            CheckpointError::InvalidUrl { location, reason } => "checkpoint url "@ + location@
                + ": "@ + reason@,
            CheckpointError::UnsupportedScheme { scheme } => "unsupported checkpoint scheme '"@
                + scheme@ + "' (use file://, s3://, or gs://)"@,
        }
    }

    /// The message for the user.
    pub fn message(&self) -> (out: String)
        ensures
            out@ == self.text(),
    {
        match self {
            CheckpointError::InvalidPath { location, reason } => {
                let mut out = text::concat("checkpoint path ", location.as_str());
                out.append(": ");
                out.append(reason.as_str());
                out
            },
            CheckpointError::InvalidUrl { location, reason } => {
                let mut out = text::concat("checkpoint url ", location.as_str());
                out.append(": ");
                out.append(reason.as_str());
                out
            },
            CheckpointError::UnsupportedScheme { scheme } => {
                let mut out = text::concat("unsupported checkpoint scheme '", scheme.as_str());
                out.append("' (use file://, s3://, or gs://)");
                out
            },
        }
    }
}

/// The path below `base` of an object whose name is given in segments.
pub open spec fn joined(base: Seq<char>, segments: Seq<Seq<char>>) -> Seq<char>
    decreases segments.len(),
{
    if segments.len() == 0 {
        base
    } else {
        let before = joined(base, segments.drop_last());
        if segments.last().len() == 0 {
            before
        } else if before.len() == 0 {
            encoded_segment(segments.last())
        } else {
            before + "/"@ + encoded_segment(segments.last())
        }
    }
}

/// The path of an object below `base`: the segments of its name, without empty ones.
pub open spec fn child_path(base: Seq<char>, rel: Seq<char>) -> Seq<char> {
    joined(base, split_on(rel, '/'))
}

/// A text without its leading slashes.
pub open spec fn without_leading_slashes(s: Seq<char>) -> Seq<char>
    decreases s.len(),
{
    if s.len() > 0 && s[0] == '/' {
        without_leading_slashes(s.skip(1))
    } else {
        s
    }
}

/// The store and the base path of a checkpoint, or the text that the location is refused for.
#[verifier::ext_equal]
pub struct LocationModel {
    pub kind: StoreKindModel,
    pub base: Seq<char>,
}

/// The store of a URL scheme.
pub open spec fn scheme_store(scheme: Seq<char>, authority: Seq<char>) -> Option<StoreKindModel> {
    if scheme == "file"@ {
        Some(StoreKindModel::Local)
    } else if scheme == "s3"@ || scheme == "s3a"@ {
        Some(StoreKindModel::S3 { client_key: scheme + "://"@ + authority })
    } else if scheme == "gs"@ {
        Some(StoreKindModel::Gcs { client_key: scheme + "://"@ + authority })
    } else {
        None
    }
}

/// Where the checkpoint with a location is kept: below a local path where the location is no URL,
/// else in the store of its scheme.
pub open spec fn checkpoint_location(location: Seq<char>) -> Option<LocationModel> {
    if !occurs(location, "://"@) {
        match absolute_store_path(location) {
            Ok(base) => Some(LocationModel { kind: StoreKindModel::Local, base }),
            Err(_) => None,
        }
    } else {
        match url_parts(location) {
            Ok(parts) => url_location(parts.0, parts.1, parts.2),
            Err(_) => None,
        }
    }
}

/// Where the checkpoint with a URL is kept.
pub open spec fn url_location(scheme: Seq<char>, authority: Seq<char>, path: Seq<char>) -> Option<
    LocationModel,
> {
    match scheme_store(scheme, authority) {
        Some(kind) => Some(
            LocationModel { kind, base: child_path(Seq::empty(), without_leading_slashes(path)) },
        ),
        None => None,
    }
}

/// Whether a location is refused for a certain reason.
pub open spec fn is_location_error(location: Seq<char>, error: CheckpointError) -> bool {
    &&& checkpoint_location(location) is None
    &&& match error {
        CheckpointError::InvalidPath { location: l, reason } => {
            &&& !occurs(location, "://"@)
            &&& absolute_store_path(location) == Err::<Seq<char>, Seq<char>>(reason@)
            &&& l@ == location
        },
        CheckpointError::InvalidUrl { location: l, reason } => {
            &&& occurs(location, "://"@)
            &&& url_parts(location) matches Err(e) && e == reason@
            &&& l@ == location
        },
        CheckpointError::UnsupportedScheme { scheme } => {
            &&& occurs(location, "://"@)
            &&& url_parts(location) matches Ok(parts) && parts.0 == scheme@
        },
    }
}

/// Where a checkpoint is kept.
#[derive(Debug)]
pub struct CheckpointStore {
    kind: StoreKind,
    base: String,
}

impl View for CheckpointStore {
    type V = LocationModel;

    closed spec fn view(&self) -> LocationModel {
        LocationModel { kind: self.kind@, base: self.base@ }
    }
}

fn skip_slashes(s: &str) -> (rest: String)
    ensures
        rest@ == without_leading_slashes(s@),
{
    let chars = text::to_chars(s);
    let mut from: usize = 0;
    assert(s@.skip(0) =~= s@);
    while from < chars.len() && chars[from] == '/'
        invariant
            from <= chars@.len(),
            chars@ == s@,
            without_leading_slashes(s@) == without_leading_slashes(s@.skip(from as int)),
        decreases chars@.len() - from,
    {
        assert(s@.skip(from as int).skip(1) =~= s@.skip(from + 1));
        from = from + 1;
    }
    let end: usize = chars.len();
    assert(s@.subrange(from as int, end as int) =~= s@.skip(from as int));
    text::from_chars(&chars, from, end)
}

/// The path of an object below `base`: the segments of its name, without empty ones.
pub fn path_below(base: &str, rel: &str) -> (path: String)
    ensures
        path@ == child_path(base@, rel@),
{
    let segments = text::split(rel, '/');
    let ghost all = texts(segments@);
    let mut path = base.to_owned();
    let mut i: usize = 0;
    assert(all.take(0) =~= Seq::<Seq<char>>::empty());
    while i < segments.len()
        invariant
            i <= segments@.len(),
            all == texts(segments@),
            path@ == joined(base@, all.take(i as int)),
        decreases segments@.len() - i,
    {
        assert(all.take(i + 1).drop_last() =~= all.take(i as int));
        assert(all.take(i + 1).last() == segments@[i as int]@);
        if !segments[i].as_str().is_empty() {
            let encoded = encode_segment(segments[i].as_str());
            if path.as_str().is_empty() {
                path = encoded;
            } else {
                path.append("/");
                path.append(encoded.as_str());
            }
        }
        i = i + 1;
    }
    assert(all.take(i as int) =~= all);
    path
}

impl CheckpointStore {
    /// Where the checkpoint with a location is kept.
    pub fn from_location(location: &str) -> (result: Result<Self, CheckpointError>)
        ensures
            match result {
                Ok(store) => checkpoint_location(location@) == Some(store@),
                Err(e) => is_location_error(location@, e),
            },
    {
        if !text::contains_text(location, "://") {
            return match store_path_of_file(location) {
                Ok(base) => Ok(CheckpointStore { kind: StoreKind::Local, base }),
                Err(reason) => Err(
                    CheckpointError::InvalidPath { location: location.to_owned(), reason },
                ),
            };
        }
        match parse_url(location) {
            Ok(parts) => match Self::from_url_parts(&parts) {
                Some(store) => Ok(store),
                None => Err(CheckpointError::UnsupportedScheme { scheme: parts.scheme }),
            },
            Err(reason) => Err(
                CheckpointError::InvalidUrl { location: location.to_owned(), reason },
            ),
        }
    }

    /// Where the checkpoint with a URL of the given parts is kept; nothing where its scheme is not
    /// supported.
    pub fn from_url_parts(parts: &UrlParts) -> (store: Option<Self>)
        ensures
            match store {
                Some(s) => url_location(parts.scheme@, parts.authority@, parts.path@) == Some(s@),
                None => url_location(parts.scheme@, parts.authority@, parts.path@) is None,
            },
    {
        let path = skip_slashes(parts.path.as_str());
        let base = path_below("", path.as_str());
        proof {
            reveal_strlit("");
            assert(""@ =~= Seq::<char>::empty());
            reveal_strlit("file");
            reveal_strlit("s3");
            reveal_strlit("s3a");
            reveal_strlit("gs");
        }
        let scheme = parts.scheme.as_str();
        let kind = if text::str_eq(scheme, "file") {
            StoreKind::Local
        } else {
            let mut client_key = text::concat(scheme, "://");
            client_key.append(parts.authority.as_str());
            if text::str_eq(scheme, "s3") || text::str_eq(scheme, "s3a") {
                StoreKind::S3 { client_key }
            } else if text::str_eq(scheme, "gs") {
                StoreKind::Gcs { client_key }
            } else {
                return None;
            }
        };
        Some(CheckpointStore { kind, base })
    }

    /// A checkpoint below a base path of a given store.
    pub fn from_store(kind: StoreKind, base: String) -> (store: Self)
        ensures
            store@ == (LocationModel { kind: kind@, base: base@ }),
    {
        CheckpointStore { kind, base }
    }

    /// The store.
    pub fn kind(&self) -> (kind: &StoreKind)
        ensures
            kind@ == self@.kind,
    {
        &self.kind
    }

    /// The base path.
    pub fn base(&self) -> (base: &str)
        ensures
            base@ == self@.base,
    {
        self.base.as_str()
    }

    /// The path of an artifact.
    pub fn child(&self, rel: &str) -> (path: String)
        ensures
            path@ == child_path(self@.base, rel@),
    {
        path_below(self.base.as_str(), rel)
    }

    /// The name of an artifact relative to the base; a path outside the base stays as it is.
    pub fn relative_name(&self, path: &str) -> (rel: String)
        ensures
            rel@ == if has_prefix(path@, self@.base + "/"@) {
                path@.skip((self@.base + "/"@).len() as int)
            } else {
                path@
            },
    {
        let prefix = text::concat(self.base.as_str(), "/");
        match text::strip_prefix(path, prefix.as_str()) {
            Some(rel) => rel,
            None => path.to_owned(),
        }
    }
}

/// The last segment of a path; nothing for the root.
pub fn leaf_name(path: &str) -> (name: Option<String>)
    ensures
        match name {
            Some(n) => path@.len() > 0 && n@ == path@.skip(last_position(path@, '/') + 1),
            None => path@.len() == 0,
        },
{
    if path.is_empty() {
        return None;
    }
    match text::rsplit_once(path, '/') {
        Some((_, leaf)) => Some(leaf),
        None => {
            assert(path@.skip(0) =~= path@);
            Some(path.to_owned())
        },
    }
}

/// What has happened so far in the promotion of a staged artifact.
#[derive(Debug)]
pub enum PromoteEvent {
    /// The staged artifact was read, or there is none.
    StagedRead { data: Option<Vec<u8>> },
    /// The committed artifact was written.
    CommittedWritten,
    /// Removing the staged artifact was tried.
    StagedRemoved,
}

/// What the promotion of a staged artifact does next.
#[derive(Debug)]
pub enum PromoteAction {
    /// Write the committed artifact.
    WriteCommitted { data: Vec<u8> },
    /// Remove the staged artifact; a failure is of no account.
    RemoveStaged,
    /// The promotion is complete.
    Done,
}

/// Whether an action is the next one of a promotion.
pub open spec fn is_next_action(event: PromoteEvent, action: PromoteAction) -> bool {
    match event {
        PromoteEvent::StagedRead { data } => match data {
            Some(d) => action == (PromoteAction::WriteCommitted { data: d }),
            None => action is Done,
        },
        PromoteEvent::CommittedWritten => action is RemoveStaged,
        PromoteEvent::StagedRemoved => action is Done,
    }
}

/// The next step of a promotion. The write of the committed artifact is the commit.
pub fn promote_step(event: PromoteEvent) -> (action: PromoteAction)
    ensures
        is_next_action(event, action),
{
    match event {
        PromoteEvent::StagedRead { data } => match data {
            Some(data) => PromoteAction::WriteCommitted { data },
            None => PromoteAction::Done,
        },
        PromoteEvent::CommittedWritten => PromoteAction::RemoveStaged,
        PromoteEvent::StagedRemoved => PromoteAction::Done,
    }
}

/// The artifacts after a promotion in a store that performs each step.
pub open spec fn promoted(
    artifacts: Map<Seq<char>, Seq<u8>>,
    staged: Seq<char>,
    committed: Seq<char>,
) -> Map<Seq<char>, Seq<u8>> {
    if artifacts.contains_key(staged) {
        artifacts.insert(committed, artifacts[staged]).remove(staged)
    } else {
        artifacts
    }
}

/// Whether an event says what there is to read.
pub open spec fn is_read(
    event: PromoteEvent,
    artifacts: Map<Seq<char>, Seq<u8>>,
    staged: Seq<char>,
) -> bool {
    event matches PromoteEvent::StagedRead { data } && match data {
        Some(d) => artifacts.contains_key(staged) && artifacts[staged] == d@,
        None => !artifacts.contains_key(staged),
    }
}

/// The artifacts after an action.
pub open spec fn performed(
    artifacts: Map<Seq<char>, Seq<u8>>,
    staged: Seq<char>,
    committed: Seq<char>,
    action: PromoteAction,
) -> Map<Seq<char>, Seq<u8>> {
    match action {
        PromoteAction::WriteCommitted { data } => artifacts.insert(committed, data@),
        PromoteAction::RemoveStaged => artifacts.remove(staged),
        PromoteAction::Done => artifacts,
    }
}

/// The event that follows an action.
pub open spec fn follows(event: PromoteEvent, action: PromoteAction) -> bool {
    match action {
        PromoteAction::WriteCommitted { .. } => event is CommittedWritten,
        PromoteAction::RemoveStaged => event is StagedRemoved,
        PromoteAction::Done => false,
    }
}

/// A run of the steps of a promotion, from what is read to the end, leaves the artifacts as after a
/// promotion: there is nothing to do where nothing is staged, else the committed artifact is written
/// and then the staged one removed.
pub proof fn law_steps_promote(
    artifacts: Map<Seq<char>, Seq<u8>>,
    staged: Seq<char>,
    committed: Seq<char>,
    events: Seq<PromoteEvent>,
    actions: Seq<PromoteAction>,
)
    requires
        events.len() == actions.len() > 0,
        is_read(events[0], artifacts, staged),
        forall|k: int| 0 <= k < events.len() ==> is_next_action(events[k], #[trigger] actions[k]),
        forall|k: int| 0 < k < events.len() ==> follows(#[trigger] events[k], actions[k - 1]),
        actions.last() is Done,
    ensures
        all_performed(artifacts, staged, committed, actions) == promoted(
            artifacts,
            staged,
            committed,
        ),
{
    reveal_with_fuel(all_performed, 4);
    assert(is_next_action(events[0], actions[0]));
    if actions[0] is Done {
        if actions.len() > 1 {
            assert(follows(events[1], actions[1 - 1]));
        }
        assert(actions.drop_last() =~= Seq::<PromoteAction>::empty());
    } else {
        assert(actions.len() > 1);
        assert(follows(events[1], actions[1 - 1]));
        assert(is_next_action(events[1], actions[1]));
        assert(actions.len() > 2);
        assert(follows(events[2], actions[2 - 1]));
        assert(is_next_action(events[2], actions[2]));
        if actions.len() > 3 {
            assert(follows(events[3], actions[3 - 1]));
        }
        assert(actions.drop_last().drop_last().drop_last() =~= Seq::<PromoteAction>::empty());
        assert(actions.drop_last().last() == actions[1]);
        assert(actions.drop_last().drop_last().last() == actions[0]);
    }
}

/// The artifacts after some actions.
pub open spec fn all_performed(
    artifacts: Map<Seq<char>, Seq<u8>>,
    staged: Seq<char>,
    committed: Seq<char>,
    actions: Seq<PromoteAction>,
) -> Map<Seq<char>, Seq<u8>>
    decreases actions.len(),
{
    if actions.len() == 0 {
        artifacts
    } else {
        let before = all_performed(artifacts, staged, committed, actions.drop_last());
        performed(before, staged, committed, actions.last())
    }
}

/// A promotion leaves the staged bytes as the committed artifact, removes the staged artifact,
/// and changes no other; a second promotion then changes nothing.
pub proof fn law_promotion_commits_what_was_staged(
    artifacts: Map<Seq<char>, Seq<u8>>,
    staged: Seq<char>,
    committed: Seq<char>,
)
    requires
        staged != committed,
    ensures
        ({
            let after = promoted(artifacts, staged, committed);
            &&& artifacts.contains_key(staged) ==> after.contains_key(committed)
                && after[committed] == artifacts[staged]
            &&& !after.contains_key(staged)
            &&& forall|k: Seq<char>|
                k != staged && k != committed ==> (#[trigger] after.contains_key(k)
                    == artifacts.contains_key(k) && (after.contains_key(k) ==> after[k]
                    == artifacts[k]))
            &&& promoted(after, staged, committed) == after
        }),
{
}

proof fn lemma_joined_is_below(base: Seq<char>, segments: Seq<Seq<char>>)
    requires
        base.len() > 0,
    ensures
        joined(base, segments) == base || has_prefix(joined(base, segments), base + "/"@),
    decreases segments.len(),
{
    if segments.len() > 0 {
        lemma_joined_is_below(base, segments.drop_last());
        let before = joined(base, segments.drop_last());
        let prefix = base + "/"@;
        reveal_strlit("/");
        if segments.last().len() > 0 {
            let after = before + "/"@ + encoded_segment(segments.last());
            if before == base {
                assert(after.take(prefix.len() as int) =~= prefix);
            } else {
                assert(after.take(prefix.len() as int) =~= before.take(prefix.len() as int));
            }
        }
    }
}

/// Every artifact of a checkpoint lies at or below the base path.
pub proof fn law_artifacts_lie_below_the_base(base: Seq<char>, rel: Seq<char>)
    requires
        base.len() > 0,
    ensures
        child_path(base, rel) == base || has_prefix(child_path(base, rel), base + "/"@),
{
    lemma_joined_is_below(base, split_on(rel, '/'));
}

proof fn lemma_joined_add(base: Seq<char>, a: Seq<Seq<char>>, b: Seq<Seq<char>>)
    ensures
        joined(base, a + b) == joined(joined(base, a), b),
    decreases b.len(),
{
    if b.len() == 0 {
        assert(a + b =~= a);
    } else {
        assert((a + b).drop_last() =~= a + b.drop_last());
        assert((a + b).last() == b.last());
        lemma_joined_add(base, a, b.drop_last());
    }
}

proof fn lemma_split_parts(a: Seq<char>, sep: char, b: Seq<char>)
    ensures
        split_on(a.push(sep) + b, sep) == split_on(a, sep) + split_on(b, sep),
        split_on(b, sep).len() > 0,
    decreases b.len(),
{
    if b.len() == 0 {
        assert(a.push(sep) + b =~= a.push(sep));
        assert(a.push(sep).drop_last() =~= a);
        assert(split_on(a.push(sep), sep) =~= split_on(a, sep) + split_on(b, sep));
    } else {
        let all = a.push(sep) + b;
        let rest = b.drop_last();
        lemma_split_parts(a, sep, rest);
        assert(all.drop_last() =~= a.push(sep) + rest);
        assert(all.last() == b.last());
        let x = split_on(a, sep);
        let y = split_on(rest, sep);
        if b.last() == sep {
            assert((x + y).push(Seq::<char>::empty()) =~= x + y.push(Seq::<char>::empty()));
        } else {
            assert((x + y).last() == y.last());
            assert((x + y).drop_last().push(y.last().push(b.last())) =~= x + y.drop_last().push(
                y.last().push(b.last()),
            ));
        }
    }
}

/// Going down a path in two steps leads where going down in one does.
pub proof fn law_paths_can_be_followed_in_steps(base: Seq<char>, a: Seq<char>, b: Seq<char>)
    ensures
        child_path(child_path(base, a), b) == child_path(base, a + seq!['/'] + b),
        child_path(base, Seq::empty()) == base,
{
    lemma_split_parts(a, '/', b);
    assert(a + seq!['/'] + b =~= a.push('/') + b);
    lemma_joined_add(base, split_on(a, '/'), split_on(b, '/'));
    let one = split_on(Seq::<char>::empty(), '/');
    assert(one.drop_last() =~= Seq::<Seq<char>>::empty());
    assert(joined(base, Seq::<Seq<char>>::empty()) == base);
}

/// One segment stands behind the base and a slash; an empty one, as between two slashes, adds
/// nothing.
pub proof fn law_segments_follow_a_slash(base: Seq<char>, segment: Seq<char>)
    requires
        forall|i: int| 0 <= i < segment.len() ==> #[trigger] segment[i] != '/',
    ensures
        segment.len() == 0 ==> child_path(base, segment) == base,
        segment.len() > 0 && base.len() > 0 ==> child_path(base, segment) == base + seq!['/']
            + encoded_segment(segment),
        segment.len() > 0 && base.len() == 0 ==> child_path(base, segment) == encoded_segment(
            segment,
        ),
{
    lemma_single_piece(segment, '/');
    reveal_strlit("/");
    assert("/"@ =~= seq!['/']);
    let one = seq![segment];
    assert(one.drop_last() =~= Seq::<Seq<char>>::empty());
    assert(joined(base, Seq::<Seq<char>>::empty()) == base);
}

proof fn lemma_single_piece(s: Seq<char>, sep: char)
    requires
        forall|i: int| 0 <= i < s.len() ==> #[trigger] s[i] != sep,
    ensures
        split_on(s, sep) == seq![s],
    decreases s.len(),
{
    if s.len() > 0 {
        let rest = s.drop_last();
        assert forall|i: int| 0 <= i < rest.len() implies #[trigger] rest[i] != sep by {
            assert(s[i] != sep);
        }
        lemma_single_piece(rest, sep);
        assert(s[s.len() - 1] != sep);
        assert(rest.push(s.last()) =~= s);
        assert(split_on(s, sep) =~= seq![s]);
    } else {
        assert(s =~= Seq::<char>::empty());
    }
}

/// Leading slashes are removed, all of them and nothing else.
pub proof fn law_leading_slashes_are_removed(s: Seq<char>)
    ensures
        ({
            let rest = without_leading_slashes(s);
            &&& rest.len() <= s.len()
            &&& s.skip(s.len() - rest.len()) == rest
            &&& forall|i: int| 0 <= i < s.len() - rest.len() ==> #[trigger] s[i] == '/'
            &&& rest.len() > 0 ==> rest[0] != '/'
        }),
    decreases s.len(),
{
    if s.len() > 0 && s[0] == '/' {
        law_leading_slashes_are_removed(s.skip(1));
        let rest = without_leading_slashes(s);
        assert(s.skip(1).skip(s.len() - 1 - rest.len()) =~= s.skip(s.len() - rest.len()));
        assert forall|i: int| 0 <= i < s.len() - rest.len() implies #[trigger] s[i] == '/' by {
            if i > 0 {
                assert(s.skip(1)[i - 1] == '/');
            }
        }
    } else {
        assert(s.skip(0) =~= s);
    }
}

/// Each scheme has its store, and a store is reached under the scheme and the authority of its
/// location; other schemes have none.
pub proof fn law_schemes_have_their_stores(scheme: Seq<char>, authority: Seq<char>, path: Seq<char>)
    ensures
        url_location(scheme, authority, path) is Some <==> scheme == "file"@ || scheme == "s3"@
            || scheme == "s3a"@ || scheme == "gs"@,
        url_location(scheme, authority, path) is Some ==> {
            let found = url_location(scheme, authority, path)->0;
            let key = scheme + "://"@ + authority;
            &&& found.kind is Local <==> scheme == "file"@
            &&& scheme == "s3"@ || scheme == "s3a"@ ==> found.kind == (StoreKindModel::S3 {
                client_key: key,
            })
            &&& scheme == "gs"@ ==> found.kind == (StoreKindModel::Gcs { client_key: key })
            &&& found.base == child_path(Seq::empty(), without_leading_slashes(path))
        },
{
    reveal_strlit("file");
    reveal_strlit("s3");
    reveal_strlit("s3a");
    reveal_strlit("gs");
    assert("file"@.len() == 4 && "s3"@.len() == 2 && "s3a"@.len() == 3 && "gs"@.len() == 2);
    assert("s3"@[0] == 's' && "gs"@[0] == 'g');
}

} // verus!
