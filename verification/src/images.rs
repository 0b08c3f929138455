//! The image pipeline: which source of each image is tried, which are passed
//! over, under which name an image is kept, and what follows from what the
//! disk and the network answer. The caller probes, fetches and stores; the
//! pipeline decides.
use sha2::Digest;
use std::collections::VecDeque;
use vstd::prelude::*;
use vstd::string::*;
use vstd::hash_set::StringHashSet;
use crate::content::{BlockModel, CandidateModel, ContentBlock, ImageCandidate};
use crate::text::{
    after_first, after_last, before_first, contains, cut_after_first, cut_after_last, cut_before,
    cut_from, first_index, from_first, has_prefix, has_substring, last_index, lemma_after_first,
    lemma_first_index, lemma_last_index, lemma_nothing_after_last, occurs_at,
    lowercase_of, prefix_of, split_words, starts_with, take_prefix, to_lowercase, words,
};
use crate::web::{is_success, join_address, joined_address};

verus! {

/// The lower-case hexadecimal SHA-256 digest of the UTF-8 bytes of `text`.
pub uninterp spec fn sha256_hex(text: Seq<char>) -> Seq<char>;

/// Number of characters of a digest: two for each of its 32 bytes.
pub const DIGEST_LEN: usize = 64;

/// Hashes the bytes of `text` with `sha2::Sha256::digest` and writes the
/// digest in lower-case hexadecimal. What is claimed of it is that it
/// depends on `text` alone and is `DIGEST_LEN` characters long.
#[verifier::external_body]
pub(crate) fn hash_hex(text: &str) -> (r: String)
    ensures
        r@ == sha256_hex(text@),
        r@.len() == DIGEST_LEN,
{
    format!("{:x}", sha2::Sha256::digest(text.as_bytes()))
}

/// Number of characters of the digest that a file name starts with.
pub const DIGEST_PREFIX: usize = 16;

/// Least number of bytes of an image that is kept.
pub const MIN_IMAGE_BYTES: usize = 1024;

/// The first URL of a `srcset`: the first word of what stands before its
/// first comma; empty where there is none.
pub open spec fn first_srcset_url(srcset: Seq<char>) -> Seq<char> {
    let head = words(before_first(srcset, ','));
    if head.len() > 0 {
        head[0]
    } else {
        Seq::empty()
    }
}

/// The sources of an image in the order in which they are tried: `src`,
/// then `data-src`, then the first URL of `srcset`.
pub open spec fn sources_of(c: CandidateModel) -> Seq<Seq<char>> {
    let primary = seq![c.src];
    let lazy = match c.data_src {
        Some(d) => primary.push(d),
        None => primary,
    };
    match c.srcset {
        Some(s) => if first_srcset_url(s).len() > 0 {
            lazy.push(first_srcset_url(s))
        } else {
            lazy
        },
        None => lazy,
    }
}

/// Whether a resolved URL is passed over at once: inline data, or a name
/// that gives a placeholder away.
pub open spec fn is_placeholder(url: Seq<char>) -> bool {
    ||| has_prefix(url, "data:"@)
    ||| has_substring(url, "1x1"@)
    ||| has_substring(url, "placeholder"@)
}

/// Whether a lower-case URL names a tracking pixel or an analytics service.
pub open spec fn names_tracker(lower: Seq<char>) -> bool {
    ||| has_substring(lower, "googletagmanager"@)
    ||| has_substring(lower, "google-analytics"@)
    ||| has_substring(lower, "facebook.com/tr"@)
    ||| has_substring(lower, "doubleclick"@)
    ||| has_substring(lower, "analytics"@)
    ||| has_substring(lower, "tracking"@)
    ||| has_substring(lower, "pixel"@)
    ||| has_substring(lower, "beacon"@)
}

/// Whether the lower-case form of a URL names a tracker.
pub open spec fn is_tracker(url: Seq<char>) -> bool {
    names_tracker(lowercase_of(url))
}

/// A URL without its query and its fragment: what stands before the first
/// `?` and the first `#`.
pub open spec fn without_query(url: Seq<char>) -> Seq<char> {
    before_first(before_first(url, '?'), '#')
}

/// The path of a URL: of what is left without query and fragment, that
/// which follows the authority, from the first `/` after `://` on. A text
/// without `://` is taken for a path as it stands.
pub open spec fn path_of(url: Seq<char>) -> Seq<char> {
    match after_first(without_query(url), "://"@) {
        Some(rest) => from_first(rest, '/'),
        None => without_query(url),
    }
}

/// The last segment of a path: what follows its last `/`.
pub open spec fn last_segment(path: Seq<char>) -> Seq<char> {
    match after_last(path, '/') {
        Some(segment) => segment,
        None => path,
    }
}

/// The extension of a URL: what follows the last dot in the last segment of
/// its path, or `jpg` where that segment has no dot. Neither the host nor
/// the query nor an earlier segment of the path gives an extension.
pub open spec fn extension_of(url: Seq<char>) -> Seq<char> {
    match after_last(last_segment(path_of(url)), '.') {
        Some(e) => e,
        None => "jpg"@,
    }
}

/// The file name for a URL with the given digest: the start of the digest, a
/// dot, and the URL's extension.
pub open spec fn file_name_from(digest: Seq<char>, url: Seq<char>) -> Seq<char> {
    prefix_of(digest, DIGEST_PREFIX as nat) + seq!['.'] + extension_of(url)
}

/// The file name under which the image at `url` is kept. It depends on the
/// URL alone.
pub open spec fn file_name_of(url: Seq<char>) -> Seq<char> {
    file_name_from(sha256_hex(url), url)
}

/// The path of the file `name` in the directory `dir`.
pub open spec fn path_in(dir: Seq<char>, name: Seq<char>) -> Seq<char> {
    dir + seq!['/'] + name
}

/// A URL whose path has no dot in its last segment is kept under the start
/// of its digest followed by `.jpg`, whatever its host and its query hold.
pub proof fn law_extension_defaults_to_jpg(url: Seq<char>)
    requires
        !last_segment(path_of(url)).contains('.'),
    ensures
        extension_of(url) == "jpg"@,
        file_name_of(url) == prefix_of(sha256_hex(url), DIGEST_PREFIX as nat) + seq!['.'] + "jpg"@,
{
    lemma_last_index(last_segment(path_of(url)), '.');
}

/// The extension is that of the path's last segment: where that segment
/// holds a dot, the extension is what follows its last dot and holds none.
pub proof fn law_extension_follows_the_last_dot(url: Seq<char>)
    requires
        last_segment(path_of(url)).contains('.'),
    ensures
        after_last(last_segment(path_of(url)), '.') == Some(extension_of(url)),
        !extension_of(url).contains('.'),
        !last_segment(path_of(url)).contains('/'),
{
    let segment = last_segment(path_of(url));
    lemma_last_index(segment, '.');
    lemma_nothing_after_last(segment, '.');
    lemma_last_index(path_of(url), '/');
    lemma_nothing_after_last(path_of(url), '/');
}

/// Whether a part of a URL holds neither `?` nor `#`.
pub open spec fn is_plain(part: Seq<char>) -> bool {
    !part.contains('?') && !part.contains('#')
}

/// What is left of a plain text followed by a query or a fragment is the
/// plain text.
proof fn lemma_query_is_cut(body: Seq<char>, tail: Seq<char>)
    requires
        is_plain(body),
        tail.len() == 0 || tail[0] == '?' || tail[0] == '#',
    ensures
        without_query(body + tail) == body,
{
    let url = body + tail;
    let n = body.len() as int;
    assert forall|i: int| 0 <= i < n implies body[i] != '?' && body[i] != '#' by {
        assert(body.contains(body[i]));
    }
    let q = before_first(url, '?');
    lemma_first_index(url, '?');
    let fq = first_index(url, '?');
    if fq < n {
        assert(url[fq] == body[fq]);
    }
    lemma_first_index(q, '#');
    let fh = first_index(q, '#');
    if fh < n {
        assert(q[fh] == body[fh]);
    }
    if tail.len() > 0 && tail[0] == '?' {
        assert(url[n] == '?');
    } else if tail.len() > 0 {
        assert(url[n] == '#');
        assert(q[n] == '#');
    } else {
        assert(url =~= body);
    }
    assert(q.take(fh) =~= body);
}

/// What follows the first `://` of a text that starts with a scheme without
/// colon and `://` is what follows those.
proof fn lemma_scheme_is_cut(scheme: Seq<char>, rest: Seq<char>)
    requires
        !scheme.contains(':'),
    ensures
        after_first(scheme + "://"@ + rest, "://"@) == Some(rest),
{
    reveal_strlit("://");
    let sep = "://"@;
    let body = scheme + sep + rest;
    let a = scheme.len() as int;
    lemma_after_first(body, sep);
    assert(body.subrange(a, a + 3) =~= sep);
    assert(occurs_at(body, sep, a));
    let i = choose|i: int|
        #![trigger occurs_at(body, sep, i)]
        occurs_at(body, sep, i) && after_first(body, sep) == Some(body.skip(i + sep.len()))
            && forall|j: int| 0 <= j < i ==> !occurs_at(body, sep, j);
    if i < a {
        assert(body.subrange(i, i + 3)[0] == body[i]);
        assert(sep[0] == ':');
        assert(scheme.contains(scheme[i]));
    }
    assert(body.skip(a + 3) =~= rest);
}

/// What stands from the first `/` on in an authority without `/` followed by
/// a path that starts with `/` is that path.
proof fn lemma_authority_is_cut(authority: Seq<char>, path: Seq<char>)
    requires
        !authority.contains('/'),
        path.len() > 0 && path[0] == '/',
    ensures
        from_first(authority + path, '/') == path,
{
    let rest = authority + path;
    lemma_first_index(rest, '/');
    let fs = first_index(rest, '/');
    if fs < authority.len() {
        assert(authority.contains(authority[fs]));
    }
    assert(rest[authority.len() as int] == path[0]);
    assert(rest.skip(fs) =~= path);
}

/// The last segment of a folder that ends with `/` followed by a file name
/// without `/` is the file name.
proof fn lemma_folder_is_cut(folder: Seq<char>, file: Seq<char>)
    requires
        folder.len() > 0 && folder.last() == '/',
        !file.contains('/'),
    ensures
        last_segment(folder + file) == file,
{
    let path = folder + file;
    lemma_last_index(path, '/');
    let ls = last_index(path, '/');
    assert(path[folder.len() - 1] == '/');
    if ls >= folder.len() {
        assert(file.contains(file[ls - folder.len()]));
    }
    assert(path.skip(ls + 1) =~= file);
}

/// For a URL written as a scheme, `://`, an authority, a folder that starts
/// and ends with `/`, a file name, and perhaps a query or a fragment, the
/// path is the folder with the file name, and the extension is that of the
/// file name: what follows its last dot, or `jpg` where it has none. What
/// the scheme, the authority, the folder, the query and the fragment hold
/// makes no difference.
pub proof fn law_extension_is_that_of_the_file(
    scheme: Seq<char>,
    authority: Seq<char>,
    folder: Seq<char>,
    file: Seq<char>,
    tail: Seq<char>,
)
    requires
        is_plain(scheme) && is_plain(authority) && is_plain(folder) && is_plain(file),
        !scheme.contains(':'),
        !authority.contains('/'),
        folder.len() > 0 && folder[0] == '/' && folder.last() == '/',
        !file.contains('/'),
        tail.len() == 0 || tail[0] == '?' || tail[0] == '#',
    ensures
        ({
            let url = scheme + "://"@ + authority + folder + file + tail;
            &&& path_of(url) == folder + file
            &&& last_segment(path_of(url)) == file
            &&& extension_of(url) == match after_last(file, '.') {
                Some(e) => e,
                None => "jpg"@,
            }
        }),
{
    reveal_strlit("://");
    let sep = "://"@;
    let path = folder + file;
    let rest = authority + path;
    let body = scheme + sep + rest;
    assert(is_plain(body)) by {
        assert forall|i: int| 0 <= i < body.len() implies body[i] != '?' && body[i] != '#' by {
            let a = scheme.len() as int;
            let b = a + 3;
            let c = b + authority.len();
            let d = c + folder.len();
            if i < a {
                assert(scheme.contains(scheme[i]));
            } else if i < b {
                assert(body[i] == sep[i - a]);
            } else if i < c {
                assert(authority.contains(authority[i - b]));
            } else if i < d {
                assert(folder.contains(folder[i - c]));
            } else {
                assert(file.contains(file[i - d]));
            }
        }
    }
    assert(scheme + sep + authority + folder + file + tail =~= body + tail);
    lemma_query_is_cut(body, tail);
    lemma_scheme_is_cut(scheme, rest);
    assert(path[0] == folder[0]);
    lemma_authority_is_cut(authority, path);
    lemma_folder_is_cut(folder, file);
}

/// The first URL of a `srcset`.
pub fn srcset_head(srcset: &str) -> (r: String)
    ensures
        r@ == first_srcset_url(srcset@),
{
    let first = cut_before(srcset, ',');
    let parts = split_words(first.as_str());
    if parts.len() > 0 {
        parts[0].clone()
    } else {
        String::new()
    }
}

/// The sources of an image in the order in which they are tried.
pub fn candidate_sources(c: &ImageCandidate) -> (r: Vec<String>)
    ensures
        r.deep_view() == sources_of(c.deep_view()),
{
    let mut out: Vec<String> = Vec::new();
    out.push(c.src.clone());
    assert(out.deep_view() =~= seq![c.src@]);
    match &c.data_src {
        Some(d) => {
            let ghost before = out.deep_view();
            out.push(d.clone());
            assert(out.deep_view() =~= before.push(d@));
        },
        None => {},
    }
    match &c.srcset {
        Some(s) => {
            let first = srcset_head(s.as_str());
            if !first.as_str().is_empty() {
                let ghost before = out.deep_view();
                out.push(first);
                assert(out.deep_view() =~= before.push(first@));
            }
        },
        None => {},
    }
    out
}

/// Whether a resolved URL is passed over at once.
pub fn looks_like_placeholder(url: &str) -> (r: bool)
    ensures
        r == is_placeholder(url@),
{
    starts_with(url, "data:") || contains(url, "1x1") || contains(url, "placeholder")
}

/// Whether a lower-case URL names a tracking pixel or an analytics service.
pub fn lower_names_tracker(lower: &str) -> (r: bool)
    ensures
        r == names_tracker(lower@),
{
    contains(lower, "googletagmanager") || contains(lower, "google-analytics") || contains(
        lower,
        "facebook.com/tr",
    ) || contains(lower, "doubleclick") || contains(lower, "analytics") || contains(
        lower,
        "tracking",
    ) || contains(lower, "pixel") || contains(lower, "beacon")
}

/// Whether the lower-case form of a URL names a tracker.
pub fn looks_like_tracker(url: &str) -> (r: bool)
    ensures
        r == is_tracker(url@),
{
    let lower = to_lowercase(url);
    lower_names_tracker(lower.as_str())
}

/// The path of a URL.
pub fn url_path(url: &str) -> (r: String)
    ensures
        r@ == path_of(url@),
{
    let before_query = cut_before(url, '?');
    let bare = cut_before(before_query.as_str(), '#');
    match cut_after_first(bare.as_str(), "://") {
        Some(rest) => cut_from(rest.as_str(), '/'),
        None => bare,
    }
}

/// The extension of a URL.
pub fn extension(url: &str) -> (r: String)
    ensures
        r@ == extension_of(url@),
{
    let path = url_path(url);
    let segment = match cut_after_last(path.as_str(), '/') {
        Some(segment) => segment,
        None => path,
    };
    match cut_after_last(segment.as_str(), '.') {
        Some(e) => e,
        None => "jpg".to_owned(),
    }
}

/// The file name for a URL with the given digest.
pub fn name_with_digest(digest: &str, url: &str) -> (r: String)
    ensures
        r@ == file_name_from(digest@, url@),
{
    let mut out = take_prefix(digest, DIGEST_PREFIX);
    out.push('.');
    let ext = extension(url);
    out.append(ext.as_str());
    out
}

/// The file name under which the image at `url` is kept: the first
/// `DIGEST_PREFIX` characters of the URL's digest, a dot, and the URL's
/// extension.
pub fn file_name(url: &str) -> (r: String)
    ensures
        r@ == file_name_of(url@),
        r@ == sha256_hex(url@).take(DIGEST_PREFIX as int) + seq!['.'] + extension_of(url@),
        r@.len() == DIGEST_PREFIX + 1 + extension_of(url@).len(),
{
    let digest = hash_hex(url);
    name_with_digest(digest.as_str(), url)
}

/// The path of the file `name` in the directory `dir`.
pub fn file_path(dir: &str, name: &str) -> (r: String)
    ensures
        r@ == path_in(dir@, name@),
{
    let mut out = dir.to_owned();
    out.push('/');
    out.append(name);
    out
}

/// One source of an image that is being tried: its URL, the path under which
/// it is kept, and the image's alternative text.
#[derive(Debug, Clone, PartialEq, Eq)]
pub struct Attempt {
    pub url: String,
    pub path: String,
    pub alt: String,
}

/// An `Attempt` as plain values.
pub struct AttemptModel {
    pub url: Seq<char>,
    pub path: Seq<char>,
    pub alt: Seq<char>,
}

impl DeepView for Attempt {
    type V = AttemptModel;

    open spec fn deep_view(&self) -> AttemptModel {
        AttemptModel { url: self.url@, path: self.path@, alt: self.alt@ }
    }
}

/// What the pipeline waits for.
pub enum PhaseModel {
    /// Whether the file of the attempt exists.
    Probing(AttemptModel),
    /// The reply to the fetch of the attempt's URL.
    Fetching(AttemptModel),
    /// Whether the bytes fetched were written to the attempt's path.
    Storing(AttemptModel),
    /// Nothing: every image was dealt with.
    Done,
}

/// What the caller is to do next.
#[derive(Debug, Clone, PartialEq, Eq)]
pub enum ImageAction {
    /// Look whether a file exists at `path`.
    Probe { path: String },
    /// Fetch `url`.
    Fetch { url: String },
    /// Write the bytes fetched last to `path`.
    Store { path: String },
    Finished,
}

/// An `ImageAction` as plain values.
pub enum ActionModel {
    Probe { path: Seq<char> },
    Fetch { url: Seq<char> },
    Store { path: Seq<char> },
    Finished,
}

impl DeepView for ImageAction {
    type V = ActionModel;

    open spec fn deep_view(&self) -> ActionModel {
        match self {
            ImageAction::Probe { path } => ActionModel::Probe { path: path@ },
            ImageAction::Fetch { url } => ActionModel::Fetch { url: url@ },
            ImageAction::Store { path } => ActionModel::Store { path: path@ },
            ImageAction::Finished => ActionModel::Finished,
        }
    }
}

/// What the caller reports back.
#[derive(Debug, Clone, Copy, PartialEq, Eq)]
pub enum ImageEvent {
    /// Whether the file probed exists.
    Probed { exists: bool },
    /// The fetch was answered, with this status and this many bytes.
    Fetched { status: u16, len: usize },
    /// The fetch was not answered.
    FetchFailed,
    /// Whether the bytes were written.
    Stored { ok: bool },
}

/// The state of the pipeline on one page.
pub struct PipelineModel {
    pub page_url: Seq<char>,
    pub dir: Seq<char>,
    /// The images not yet begun.
    pub images: Seq<CandidateModel>,
    /// The sources of the image at hand that were not tried yet.
    pub sources: Seq<Seq<char>>,
    /// The alternative text of the image at hand.
    pub alt: Seq<char>,
    /// The URLs that were considered on this page.
    pub seen: Set<Seq<char>>,
    /// The image blocks made so far.
    pub blocks: Seq<BlockModel>,
    pub phase: PhaseModel,
}

/// The pipeline before anything was looked at.
pub open spec fn fresh(
    page_url: Seq<char>,
    dir: Seq<char>,
    images: Seq<CandidateModel>,
) -> PipelineModel {
    PipelineModel {
        page_url,
        dir,
        images,
        sources: Seq::empty(),
        alt: Seq::empty(),
        seen: Set::empty(),
        blocks: Seq::empty(),
        phase: PhaseModel::Done,
    }
}

/// Moves on to the first source that needs the caller. Sources are taken in
/// order, image by image. One that does not resolve against the page's URL,
/// is a placeholder or was considered before on this page is passed over.
/// One that names a tracker ends its image. For any other the pipeline
/// probes the file it would be kept in.
pub open spec fn settle(m: PipelineModel) -> PipelineModel
    decreases m.images.len(), m.sources.len(),
{
    let idle = PipelineModel { phase: PhaseModel::Done, ..m };
    if idle.sources.len() == 0 {
        if idle.images.len() == 0 {
            idle
        } else {
            settle(
                PipelineModel {
                    sources: sources_of(idle.images[0]),
                    alt: idle.images[0].alt,
                    images: idle.images.drop_first(),
                    ..idle
                },
            )
        }
    } else {
        let rest = PipelineModel { sources: idle.sources.drop_first(), ..idle };
        match joined_address(idle.page_url, idle.sources[0]) {
            Some(url) => if is_placeholder(url) || idle.seen.contains(url) {
                settle(rest)
            } else if is_tracker(url) {
                settle(PipelineModel { sources: Seq::empty(), seen: idle.seen.insert(url), ..idle })
            } else {
                PipelineModel {
                    seen: idle.seen.insert(url),
                    phase: PhaseModel::Probing(
                        AttemptModel {
                            url,
                            path: path_in(idle.dir, file_name_of(url)),
                            alt: idle.alt,
                        },
                    ),
                    ..rest
                }
            },
            None => settle(rest),
        }
    }
}

/// The block of an image that is kept.
pub open spec fn image_block(a: AttemptModel) -> BlockModel {
    BlockModel::Image { original_url: a.url, local_path: a.path, alt_text: a.alt }
}

/// The pipeline after the attempt succeeded: its block is made, the image's
/// other sources are dropped.
pub open spec fn kept(m: PipelineModel, a: AttemptModel) -> PipelineModel {
    settle(PipelineModel { blocks: m.blocks.push(image_block(a)), sources: Seq::empty(), ..m })
}

/// Whether a reply is an image worth keeping: a success of at least
/// `MIN_IMAGE_BYTES` bytes.
pub open spec fn is_worth_keeping(status: u16, len: usize) -> bool {
    is_success(status) && len >= MIN_IMAGE_BYTES
}

/// The pipeline after the caller reported `event`. A file that exists is
/// used as it is. A file that does not is fetched. A reply worth keeping is
/// stored, and kept once it is written. Anything else ends the attempt, and
/// the image's next source is tried.
pub open spec fn stepped(m: PipelineModel, event: ImageEvent) -> PipelineModel {
    match m.phase {
        PhaseModel::Probing(a) => match event {
            ImageEvent::Probed { exists: true } => kept(m, a),
            ImageEvent::Probed { exists: false } => PipelineModel {
                phase: PhaseModel::Fetching(a),
                ..m
            },
            _ => settle(m),
        },
        PhaseModel::Fetching(a) => match event {
            ImageEvent::Fetched { status, len } => if is_worth_keeping(status, len) {
                PipelineModel { phase: PhaseModel::Storing(a), ..m }
            } else {
                settle(m)
            },
            _ => settle(m),
        },
        PhaseModel::Storing(a) => match event {
            ImageEvent::Stored { ok: true } => kept(m, a),
            _ => settle(m),
        },
        PhaseModel::Done => m,
    }
}

/// What the caller is to do in this state.
pub open spec fn action_of(m: PipelineModel) -> ActionModel {
    match m.phase {
        PhaseModel::Probing(a) => ActionModel::Probe { path: a.path },
        PhaseModel::Fetching(a) => ActionModel::Fetch { url: a.url },
        PhaseModel::Storing(a) => ActionModel::Store { path: a.path },
        PhaseModel::Done => ActionModel::Finished,
    }
}

/// `settle` never asks for a fetch or a store: it ends probing or done.
pub proof fn lemma_settle_probes(m: PipelineModel)
    ensures
        settle(m).phase is Probing || settle(m).phase is Done,
        settle(m).blocks == m.blocks,
    decreases m.images.len(), m.sources.len(),
{
    let idle = PipelineModel { phase: PhaseModel::Done, ..m };
    if idle.sources.len() == 0 {
        if idle.images.len() > 0 {
            lemma_settle_probes(
                PipelineModel {
                    sources: sources_of(idle.images[0]),
                    alt: idle.images[0].alt,
                    images: idle.images.drop_first(),
                    ..idle
                },
            );
        }
    } else {
        let rest = PipelineModel { sources: idle.sources.drop_first(), ..idle };
        match joined_address(idle.page_url, idle.sources[0]) {
            Some(url) => if is_placeholder(url) || idle.seen.contains(url) {
                lemma_settle_probes(rest);
            } else if is_tracker(url) {
                lemma_settle_probes(
                    PipelineModel { sources: Seq::empty(), seen: idle.seen.insert(url), ..idle },
                );
            },
            None => lemma_settle_probes(rest),
        }
    }
}

/// Running the pipeline on an image whose file is missing, and again once
/// the file is there, comes to the same: the first run fetches the URL once
/// and stores it under the path that was probed; the second finds the file
/// at that path, fetches nothing, and leaves the pipeline in the very state
/// in which the first run left it, with the same image block.
pub proof fn law_second_run_reuses_the_file(
    m: PipelineModel,
    a: AttemptModel,
    status: u16,
    len: usize,
)
    requires
        m.phase == PhaseModel::Probing(a),
        is_worth_keeping(status, len),
    ensures
        ({
            let missing = stepped(m, ImageEvent::Probed { exists: false });
            let answered = stepped(missing, ImageEvent::Fetched { status, len });
            let first_run = stepped(answered, ImageEvent::Stored { ok: true });
            let second_run = stepped(m, ImageEvent::Probed { exists: true });
            &&& action_of(m) == ActionModel::Probe { path: a.path }
            &&& action_of(missing) == ActionModel::Fetch { url: a.url }
            &&& action_of(answered) == ActionModel::Store { path: a.path }
            &&& !(action_of(first_run) is Fetch)
            &&& !(action_of(second_run) is Fetch)
            &&& second_run == first_run
            &&& second_run.blocks == m.blocks.push(image_block(a))
        }),
{
    let missing = stepped(m, ImageEvent::Probed { exists: false });
    let answered = stepped(missing, ImageEvent::Fetched { status, len });
    let base = PipelineModel { blocks: m.blocks.push(image_block(a)), sources: Seq::empty(), ..m };
    let base2 = PipelineModel {
        blocks: answered.blocks.push(image_block(a)),
        sources: Seq::empty(),
        ..answered
    };
    lemma_settle_phase_blind(base, base2);
    lemma_settle_probes(base);
}

/// A page with one image whose `src` resolves to a URL that is neither a
/// placeholder nor a tracker: the pipeline probes the file named after the
/// URL in the output directory; where that is missing, it fetches the URL;
/// a reply worth keeping is stored there; and the one block that the page's
/// images give is that image, with the resolved URL, that path and the
/// image's alternative text.
pub proof fn law_single_image_is_fetched_and_kept(
    page_url: Seq<char>,
    dir: Seq<char>,
    image: CandidateModel,
    url: Seq<char>,
    status: u16,
    len: usize,
)
    requires
        joined_address(page_url, image.src) == Some(url),
        !is_placeholder(url),
        !is_tracker(url),
        is_worth_keeping(status, len),
    ensures
        ({
            let attempt = AttemptModel {
                url,
                path: path_in(dir, file_name_of(url)),
                alt: image.alt,
            };
            let probing = settle(fresh(page_url, dir, seq![image]));
            let missing = stepped(probing, ImageEvent::Probed { exists: false });
            let answered = stepped(missing, ImageEvent::Fetched { status, len });
            let end = stepped(answered, ImageEvent::Stored { ok: true });
            &&& probing.phase == PhaseModel::Probing(attempt)
            &&& action_of(probing) == ActionModel::Probe { path: attempt.path }
            &&& action_of(missing) == ActionModel::Fetch { url }
            &&& action_of(answered) == ActionModel::Store { path: attempt.path }
            &&& action_of(end) == ActionModel::Finished
            &&& end.blocks == seq![image_block(attempt)]
        }),
{
    let attempt = AttemptModel { url, path: path_in(dir, file_name_of(url)), alt: image.alt };
    let f = fresh(page_url, dir, seq![image]);
    let idle = PipelineModel { phase: PhaseModel::Done, ..f };
    let loaded = PipelineModel {
        sources: sources_of(image),
        alt: image.alt,
        images: idle.images.drop_first(),
        ..idle
    };
    assert(idle.images[0] == image);
    assert(sources_of(image).len() > 0 && sources_of(image)[0] == image.src);
    assert(settle(f) == settle(loaded));
    let probing = settle(loaded);
    assert(probing.phase == PhaseModel::Probing(attempt));
    assert(probing.images.len() == 0);
    assert(probing.blocks =~= Seq::<BlockModel>::empty());
    let missing = stepped(probing, ImageEvent::Probed { exists: false });
    let answered = stepped(missing, ImageEvent::Fetched { status, len });
    let base = PipelineModel {
        blocks: answered.blocks.push(image_block(attempt)),
        sources: Seq::empty(),
        ..answered
    };
    assert(settle(base) == (PipelineModel { phase: PhaseModel::Done, ..base }));
    assert(base.blocks =~= seq![image_block(attempt)]);
}

/// `settle` does not look at the phase it starts from.
pub proof fn lemma_settle_phase_blind(a: PipelineModel, b: PipelineModel)
    requires
        a == (PipelineModel { phase: a.phase, ..b }),
    ensures
        settle(a) == settle(b),
{
    let idle_a = PipelineModel { phase: PhaseModel::Done, ..a };
    let idle_b = PipelineModel { phase: PhaseModel::Done, ..b };
    assert(idle_a == idle_b);
}

/// A reply that is not worth keeping, such as one of fewer bytes than
/// `MIN_IMAGE_BYTES`, is never stored and makes no block.
pub proof fn law_small_image_is_dropped(m: PipelineModel, a: AttemptModel, status: u16, len: usize)
    requires
        m.phase == PhaseModel::Fetching(a),
        !is_worth_keeping(status, len),
    ensures
        ({
            let next = stepped(m, ImageEvent::Fetched { status, len });
            &&& next.blocks == m.blocks
            &&& !(action_of(next) is Store)
        }),
{
    lemma_settle_probes(m);
}

#[derive(Debug, Clone, Copy, PartialEq, Eq)]
enum Stage {
    Probing,
    Fetching,
    Storing,
}

/// The image pipeline of one page.
pub struct ImagePipeline {
    page_url: String,
    dir: String,
    images: VecDeque<ImageCandidate>,
    sources: VecDeque<String>,
    alt: String,
    seen: StringHashSet,
    blocks: Vec<ContentBlock>,
    stage: Stage,
    attempt: Option<Attempt>,
}

impl View for ImagePipeline {
    type V = PipelineModel;

    closed spec fn view(&self) -> PipelineModel {
        PipelineModel {
            page_url: self.page_url@,
            dir: self.dir@,
            images: self.images.deep_view(),
            sources: self.sources.deep_view(),
            alt: self.alt@,
            seen: self.seen@,
            blocks: self.blocks.deep_view(),
            phase: match self.attempt {
                Some(a) => match self.stage {
                    Stage::Probing => PhaseModel::Probing(a.deep_view()),
                    Stage::Fetching => PhaseModel::Fetching(a.deep_view()),
                    Stage::Storing => PhaseModel::Storing(a.deep_view()),
                },
                None => PhaseModel::Done,
            },
        }
    }
}

fn queue_of_sources(v: Vec<String>) -> (q: VecDeque<String>)
    ensures
        q.deep_view() == v.deep_view(),
{
    let mut q: VecDeque<String> = VecDeque::new();
    let mut k: usize = 0;
    while k < v.len()
        invariant
            k <= v.len(),
            q.deep_view() == v.deep_view().take(k as int),
        decreases v.len() - k,
    {
        let ghost before = q.deep_view();
        q.push_back(v[k].clone());
        assert(q.deep_view() =~= before.push(v[k as int]@));
        assert(v.deep_view().take(k + 1) =~= v.deep_view().take(k as int).push(v[k as int]@));
        k += 1;
    }
    assert(v.deep_view().take(k as int) =~= v.deep_view());
    q
}

fn queue_of_images(v: Vec<ImageCandidate>) -> (q: VecDeque<ImageCandidate>)
    ensures
        q.deep_view() == v.deep_view(),
{
    let ghost all = v.deep_view();
    let mut q: VecDeque<ImageCandidate> = VecDeque::new();
    assert(q.deep_view() =~= all.take(0));
    for c in it: v
        invariant
            all == it.seq().map_values(|c: ImageCandidate| c.deep_view()),
            q.deep_view() == all.take(it.index() as int),
    {
        let ghost before = q.deep_view();
        let ghost k = it.index() as int;
        q.push_back(c);
        assert(q.deep_view() =~= before.push(c.deep_view()));
        assert(all.take(k + 1) =~= all.take(k).push(c.deep_view()));
    }
    assert(all.take(all.len() as int) =~= all);
    q
}

impl ImagePipeline {
    /// The pipeline for the images of the page at `page_url`, which keeps
    /// its files in the directory `dir`.
    pub fn new(page_url: &str, dir: &str, images: Vec<ImageCandidate>) -> (p: ImagePipeline)
        ensures
            p@ == settle(fresh(page_url@, dir@, images.deep_view())),
    {
        let blocks: Vec<ContentBlock> = Vec::new();
        let mut p = ImagePipeline {
            page_url: page_url.to_owned(),
            dir: dir.to_owned(),
            images: queue_of_images(images),
            sources: VecDeque::new(),
            alt: String::new(),
            seen: StringHashSet::new(),
            blocks,
            stage: Stage::Probing,
            attempt: None,
        };
        proof {
            let f = fresh(page_url@, dir@, images.deep_view());
            assert(p@.sources =~= f.sources);
            assert(p@.alt =~= f.alt);
            assert(p@.seen =~= f.seen);
            assert(p@.blocks =~= f.blocks);
            assert(p@ == f);
        }
        p.settle();
        p
    }

    fn settle(&mut self)
        ensures
            final(self)@ == settle(old(self)@),
    {
        self.attempt = None;
        loop
            invariant
                self@.phase is Done,
                settle(old(self)@) == settle(self@),
            decreases self.images.len(), self.sources.len(),
        {
            let ghost before = self@;
            if self.sources.len() == 0 {
                match self.images.pop_front() {
                    Some(image) => {
                        self.sources = queue_of_sources(candidate_sources(&image));
                        self.alt = image.alt;
                        assert(self@.images =~= before.images.drop_first());
                        assert(before.images[0] == image.deep_view());
                    },
                    None => {
                        return ;
                    },
                }
            } else {
                let source = self.sources.pop_front().unwrap();
                assert(self@.sources =~= before.sources.drop_first());
                assert(before.sources[0] == source@);
                match join_address(self.page_url.as_str(), source.as_str()) {
                    Some(url) => {
                        if !looks_like_placeholder(url.as_str()) && !self.seen.contains(
                            url.as_str(),
                        ) {
                            self.seen.insert(url.clone());
                            if looks_like_tracker(url.as_str()) {
                                self.sources.clear();
                                assert(self@.sources =~= Seq::<Seq<char>>::empty());
                            } else {
                                let name = file_name(url.as_str());
                                let path = file_path(self.dir.as_str(), name.as_str());
                                self.stage = Stage::Probing;
                                self.attempt = Some(Attempt { url, path, alt: self.alt.clone() });
                                return ;
                            }
                        }
                    },
                    None => {},
                }
            }
        }
    }

    /// What the caller is to do next.
    pub fn action(&self) -> (r: ImageAction)
        ensures
            r.deep_view() == action_of(self@),
    {
        match &self.attempt {
            Some(a) => match self.stage {
                Stage::Probing => ImageAction::Probe { path: a.path.clone() },
                Stage::Fetching => ImageAction::Fetch { url: a.url.clone() },
                Stage::Storing => ImageAction::Store { path: a.path.clone() },
            },
            None => ImageAction::Finished,
        }
    }

    fn keep(&mut self, a: Attempt)
        ensures
            final(self)@ == kept(old(self)@, a.deep_view()),
    {
        let ghost before = self@;
        self.blocks.push(
            ContentBlock::Image { original_url: a.url, local_path: a.path, alt_text: a.alt },
        );
        self.sources.clear();
        proof {
            assert(self@.blocks =~= before.blocks.push(image_block(a.deep_view())));
            assert(self@.sources =~= Seq::<Seq<char>>::empty());
            lemma_settle_phase_blind(
                self@,
                PipelineModel {
                    blocks: before.blocks.push(image_block(a.deep_view())),
                    sources: Seq::empty(),
                    ..before
                },
            );
        }
        self.settle();
    }

    /// Takes in what the caller reports of the action it was given.
    pub fn step(&mut self, event: ImageEvent)
        ensures
            final(self)@ == stepped(old(self)@, event),
    {
        let ghost before = self@;
        let stage = self.stage;
        let a = match self.attempt.take() {
            Some(a) => a,
            None => {
                return ;
            },
        };
        proof {
            lemma_settle_phase_blind(self@, before);
        }
        match (stage, event) {
            (Stage::Probing, ImageEvent::Probed { exists: true }) => {
                proof {
                    lemma_keep_phase_blind(self@, before, a.deep_view());
                }
                self.keep(a);
            },
            (Stage::Probing, ImageEvent::Probed { exists: false }) => {
                self.stage = Stage::Fetching;
                self.attempt = Some(a);
            },
            (Stage::Fetching, ImageEvent::Fetched { status, len }) => {
                if 200 <= status && status <= 299 && len >= MIN_IMAGE_BYTES {
                    self.stage = Stage::Storing;
                    self.attempt = Some(a);
                } else {
                    self.settle();
                }
            },
            (Stage::Storing, ImageEvent::Stored { ok: true }) => {
                proof {
                    lemma_keep_phase_blind(self@, before, a.deep_view());
                }
                self.keep(a);
            },
            _ => {
                self.settle();
            },
        }
    }

    /// The image blocks made so far, in the order of their images.
    pub fn blocks(&self) -> (r: &Vec<ContentBlock>)
        ensures
            r.deep_view() == self@.blocks,
    {
        &self.blocks
    }

    /// Ends the pipeline and hands out its image blocks.
    pub fn into_blocks(self) -> (r: Vec<ContentBlock>)
        ensures
            r.deep_view() == self@.blocks,
    {
        self.blocks
    }
}

/// `kept` does not look at the phase it starts from.
proof fn lemma_keep_phase_blind(a: PipelineModel, b: PipelineModel, attempt: AttemptModel)
    requires
        a == (PipelineModel { phase: a.phase, ..b }),
    ensures
        kept(a, attempt) == kept(b, attempt),
{
    lemma_settle_phase_blind(
        PipelineModel { blocks: a.blocks.push(image_block(attempt)), sources: Seq::empty(), ..a },
        PipelineModel { blocks: b.blocks.push(image_block(attempt)), sources: Seq::empty(), ..b },
    );
}

} // verus!
