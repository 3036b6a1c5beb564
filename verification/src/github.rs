//! Releases: which image of a release is wanted, whether a cached copy will
//! do, and whether a download is whole.

use crate::digest::{sha256_of, Hasher};
use crate::text::{
    chars_of, contains, ends, ends_with, hex_bytes, hex_byte, is_white, join, occurs, same,
    split_whitespace, starts, starts_with, trim, trimmed, trimmed_end, trimmed_start, views, words,
};
use vstd::prelude::*;

verus! {

/// The image of a release that is wanted.
#[derive(Debug, Clone)]
pub struct ReleaseInfo {
    pub version: String,
    pub image_name: String,
    pub download_url: String,
    pub size_bytes: u64,
    pub expected_sha256: Option<String>,
}

/// An image on this machine.
#[derive(Debug, Clone)]
pub struct DownloadResult {
    pub path: String,
    pub version: String,
    pub image_name: String,
    pub cached: bool,
}

/// A file of a release.
pub struct GithubAsset {
    pub name: String,
    pub browser_download_url: String,
    pub size: u64,
}

/// A release.
pub struct GithubRelease {
    pub tag_name: String,
    pub assets: Vec<GithubAsset>,
}

pub open spec fn asset_names(assets: Seq<GithubAsset>) -> Seq<Seq<char>> {
    assets.map_values(|a: GithubAsset| a.name@)
}

/// The file is an image for the variant.
pub open spec fn fits_variant(name: Seq<char>, variant: Seq<char>) -> bool {
    &&& ends(name, ".img.xz"@) || ends(name, ".img.gz"@)
    &&& if variant == "clone"@ {
        occurs(name, "-clone"@)
    } else {
        starts(name, "ArchR-R36S"@) && !occurs(name, "-clone"@)
    }
}

/// The first file that is an image for the variant.
pub open spec fn first_fit(names: Seq<Seq<char>>, variant: Seq<char>, i: int) -> Option<int>
    decreases names.len() - i,
{
    if i < 0 || i >= names.len() {
        None
    } else if fits_variant(names[i], variant) {
        Some(i)
    } else {
        first_fit(names, variant, i + 1)
    }
}

/// The first file with this name.
pub open spec fn first_named(names: Seq<Seq<char>>, name: Seq<char>, i: int) -> Option<int>
    decreases names.len() - i,
{
    if i < 0 || i >= names.len() {
        None
    } else if names[i] == name {
        Some(i)
    } else {
        first_named(names, name, i + 1)
    }
}

/// Finds the image for a variant in a release.
pub fn select_image(assets: &Vec<GithubAsset>, variant: &str) -> (r: Result<usize, String>)
    ensures
        match r {
            Ok(i) => first_fit(asset_names(assets@), variant@, 0) == Some(i as int) && i
                < assets@.len(),
            Err(e) => first_fit(asset_names(assets@), variant@, 0) is None && e@
                == "No image found for '"@ + variant@ + "' in latest release"@,
        },
{
    let ghost names = asset_names(assets@);
    let mut i: usize = 0;
    while i < assets.len()
        invariant
            i <= assets@.len(),
            names == asset_names(assets@),
            first_fit(names, variant@, 0) == first_fit(names, variant@, i as int),
        decreases assets@.len() - i,
    {
        let name = assets[i].name.as_str();
        assert(names[i as int] == name@);
        if ends_with(name, ".img.xz") || ends_with(name, ".img.gz") {
            let fit = if same(variant, "clone") {
                contains(name, "-clone")
            } else {
                starts_with(name, "ArchR-R36S") && !contains(name, "-clone")
            };
            if fit {
                return Ok(i);
            }
        }
        i += 1;
    }
    Err(join(join("No image found for '", variant).as_str(), "' in latest release"))
}

/// Finds the file with the digest of an image in a release.
pub fn select_hash(assets: &Vec<GithubAsset>, image_name: &str) -> (r: Option<usize>)
    ensures
        match r {
            Some(i) => first_named(asset_names(assets@), image_name@ + ".sha256"@, 0) == Some(
                i as int,
            ) && i < assets@.len(),
            None => first_named(asset_names(assets@), image_name@ + ".sha256"@, 0) is None,
        },
{
    let ghost names = asset_names(assets@);
    let wanted = join(image_name, ".sha256");
    let mut i: usize = 0;
    while i < assets.len()
        invariant
            i <= assets@.len(),
            names == asset_names(assets@),
            wanted@ == image_name@ + ".sha256"@,
            first_named(names, wanted@, 0) == first_named(names, wanted@, i as int),
        decreases assets@.len() - i,
    {
        assert(names[i as int] == assets@[i as int].name@);
        if same(assets[i].name.as_str(), wanted.as_str()) {
            return Some(i);
        }
        i += 1;
    }
    None
}

pub open spec fn is_hex_digit(c: char) -> bool {
    '0' <= c <= '9' || 'a' <= c <= 'f' || 'A' <= c <= 'F'
}

/// The text is a SHA-256 digest in hexadecimal.
pub open spec fn is_sha256(s: Seq<char>) -> bool {
    s.len() == 64 && forall|i: int| 0 <= i < s.len() ==> is_hex_digit(#[trigger] s[i])
}

/// The first word of a text, if there is one.
pub open spec fn first_word(s: Seq<char>) -> Seq<char> {
    if words(s).len() > 0 {
        trimmed(words(s)[0])
    } else {
        trimmed(Seq::empty())
    }
}

/// The digest that a digest file gives: its first word, if that is one.
pub fn parse_sha256(text: &str) -> (r: Option<String>)
    ensures
        match r {
            Some(h) => is_sha256(first_word(text@)) && h@ == first_word(text@),
            None => !is_sha256(first_word(text@)),
        },
{
    let list = split_whitespace(text);
    assert(views(list@).len() == list@.len());
    let word = if list.len() > 0 {
        assert(views(list@)[0] == list@[0]@);
        trim(list[0].as_str())
    } else {
        let empty = String::new();
        assert(empty@ =~= Seq::<char>::empty());
        trim(empty.as_str())
    };
    let a = chars_of(word.as_str());
    if a.len() != 64 {
        return None;
    }
    let mut i: usize = 0;
    while i < a.len()
        invariant
            i <= a@.len(),
            a@ == word@,
            word@ == first_word(text@),
            forall|j: int| 0 <= j < i ==> is_hex_digit(#[trigger] a@[j]),
        decreases a@.len() - i,
    {
        let c = a[i];
        let hex = ('0' <= c && c <= '9') || ('a' <= c && c <= 'f') || ('A' <= c && c <= 'F');
        if !hex {
            assert(!is_hex_digit(word@[i as int]));
            return None;
        }
        i += 1;
    }
    Some(word)
}

/// What is known of the image for a variant, with the text of its digest
/// file, where there is one and it could be read.
pub fn latest_release(release: &GithubRelease, variant: &str, hash_text: Option<String>) -> (r:
    Result<ReleaseInfo, String>)
    ensures
        match first_fit(asset_names(release.assets@), variant@, 0) {
            Some(i) => {
                &&& r matches Ok(info)
                &&& info.version@ == release.tag_name@
                &&& info.image_name@ == release.assets@[i].name@
                &&& info.download_url@ == release.assets@[i].browser_download_url@
                &&& info.size_bytes == release.assets@[i].size
                &&& match info.expected_sha256 {
                    Some(h) => hash_text is Some && is_sha256(first_word(hash_text->0@)) && h@
                        == first_word(hash_text->0@),
                    None => hash_text is None || !is_sha256(first_word(hash_text->0@)),
                }
            },
            None => r matches Err(e) && e@ == "No image found for '"@ + variant@
                + "' in latest release"@,
        },
{
    let i = match select_image(&release.assets, variant) {
        Ok(i) => i,
        Err(e) => {
            return Err(e);
        },
    };
    let expected_sha256 = match hash_text {
        Some(t) => parse_sha256(t.as_str()),
        None => None,
    };
    let asset = &release.assets[i];
    Ok(
        ReleaseInfo {
            version: release.tag_name.clone(),
            image_name: asset.name.clone(),
            download_url: asset.browser_download_url.clone(),
            size_bytes: asset.size,
            expected_sha256,
        },
    )
}

// ---------------------------------------------------------------------------
// The cache
// ---------------------------------------------------------------------------

/// What is to be made of a cached copy.
pub enum CacheState {
    /// There is none that fits: download.
    Absent,
    /// Nothing is known against it: use it.
    Trusted,
    /// Use it if it has this digest; else remove it and download.
    Check(String),
}

pub ghost enum CacheView {
    Absent,
    Trusted,
    Check(Seq<char>),
}

impl CacheState {
    pub open spec fn view(&self) -> CacheView {
        match self {
            CacheState::Absent => CacheView::Absent,
            CacheState::Trusted => CacheView::Trusted,
            CacheState::Check(h) => CacheView::Check(h@),
        }
    }
}

/// What is to be made of a cached copy of this size, with the text of its
/// digest file.
pub open spec fn cached_copy(size: Option<u64>, wanted: u64, stored: Option<Seq<char>>) -> CacheView {
    if size != Some(wanted) {
        CacheView::Absent
    } else {
        match stored {
            None => CacheView::Trusted,
            Some(t) => if trimmed(t).len() == 0 {
                CacheView::Absent
            } else {
                CacheView::Check(trimmed(t))
            },
        }
    }
}

pub open spec fn text_of(s: Option<String>) -> Option<Seq<char>> {
    match s {
        Some(t) => Some(t@),
        None => None,
    }
}

/// What is to be made of a cached copy.
pub fn cache_state(size: Option<u64>, wanted: u64, stored: Option<String>) -> (r: CacheState)
    ensures
        r@ == cached_copy(size, wanted, text_of(stored)),
{
    let fits = match size {
        Some(n) => n == wanted,
        None => false,
    };
    if !fits {
        return CacheState::Absent;
    }
    match stored {
        None => CacheState::Trusted,
        Some(t) => {
            let h = trim(t.as_str());
            if h.as_str().is_empty() {
                CacheState::Absent
            } else {
                CacheState::Check(h)
            }
        },
    }
}

/// Whether bytes that were hashed have a digest.
pub fn verify_sha256(hasher: Hasher, expected: &str) -> (r: bool)
    ensures
        r == (hex_bytes(sha256_of(hasher@)@) == expected@),
{
    let hash = hasher.finish();
    same(hash.as_str(), expected)
}

/// The digest of bytes that were hashed, unless another was expected.
pub fn check_image_hash(hasher: Hasher, expected: Option<String>) -> (r: Result<String, String>)
    ensures
        ({
            let hash = hex_bytes(sha256_of(hasher@)@);
            match r {
                Ok(h) => h@ == hash && (expected is None || expected->0@ == hash),
                Err(e) => expected is Some && expected->0@ != hash && e@
                    == "SHA256 mismatch\nExpected: "@ + expected->0@ + "\nGot: "@ + hash,
            }
        }),
{
    let hash = hasher.finish();
    match expected {
        Some(x) => {
            if !same(hash.as_str(), x.as_str()) {
                let a = join("SHA256 mismatch\nExpected: ", x.as_str());
                return Err(join(join(a.as_str(), "\nGot: ").as_str(), hash.as_str()));
            }
        },
        None => {},
    }
    Ok(hash)
}

/// A download that is under way.
pub struct Download {
    hasher: Hasher,
    received: u64,
}

impl Download {
    /// The bytes received so far.
    pub closed spec fn view(&self) -> Seq<u8> {
        self.hasher@
    }

    pub closed spec fn wf(&self) -> bool {
        self.received == self.hasher@.len()
    }

    pub fn new() -> (r: Self)
        ensures
            r.wf(),
            r@ == Seq::<u8>::empty(),
    {
        Download { hasher: Hasher::new(), received: 0 }
    }

    /// Takes a piece of the file; how many bytes there are now.
    pub fn take(&mut self, chunk: &[u8]) -> (r: u64)
        requires
            old(self).wf(),
            old(self)@.len() + chunk@.len() <= u64::MAX,
        ensures
            final(self).wf(),
            final(self)@ == old(self)@ + chunk@,
            r == final(self)@.len(),
    {
        self.hasher.update(chunk);
        self.received = self.received + chunk.len() as u64;
        self.received
    }

    /// How many bytes were received.
    pub fn received(&self) -> (r: u64)
        requires
            self.wf(),
        ensures
            r == self@.len(),
    {
        self.received
    }

    /// The digest of the download, which goes into its digest file; and a
    /// message if another one was expected, in which case the download is
    /// thrown away.
    pub fn finish(self, expected: &Option<String>) -> (r: (String, Result<(), String>))
        ensures
            r.0@ == hex_bytes(sha256_of(self@)@),
            match r.1 {
                Ok(_) => *expected is None || expected->0@ == r.0@,
                Err(e) => *expected is Some && expected->0@ != r.0@ && e@
                    == "Download corrupted: SHA256 mismatch\nExpected: "@ + expected->0@
                    + "\nGot: "@ + r.0@,
            },
    {
        let hash = self.hasher.finish();
        match expected {
            Some(x) => {
                if !same(hash.as_str(), x.as_str()) {
                    let a = join("Download corrupted: SHA256 mismatch\nExpected: ", x.as_str());
                    let b = join(join(a.as_str(), "\nGot: ").as_str(), hash.as_str());
                    return (hash, Err(b));
                }
            },
            None => {},
        }
        (hash, Ok(()))
    }
}

proof fn lemma_hex_not_white(b: Seq<u8>)
    ensures
        forall|i: int| 0 <= i < hex_bytes(b).len() ==> !is_white(#[trigger] hex_bytes(b)[i]),
    decreases b.len(),
{
    if b.len() > 0 {
        let pre = hex_bytes(b.drop_last());
        lemma_hex_not_white(b.drop_last());
        assert forall|i: int| 0 <= i < hex_bytes(b).len() implies !is_white(
            #[trigger] hex_bytes(b)[i],
        ) by {
            if i < pre.len() {
                assert(hex_bytes(b)[i] == pre[i]);
            } else {
                assert(hex_bytes(b)[i] == hex_byte(b.last())[i - pre.len()]);
            }
        }
    }
}

/// A download that was kept is taken from the cache the next time: its size
/// is the one wanted, and the bytes have the digest in its digest file.
pub proof fn lemma_download_found_again(data: Seq<u8>, size: u64)
    requires
        data.len() == size,
    ensures
        ({
            let hash = hex_bytes(sha256_of(data)@);
            let start = fetch_start(cached_copy(Some(size), size, Some(hash)));
            &&& start == FetchView::HashCached(hash)
            &&& after_hashing(start, Some(data)) == FetchView::Done(Ok(true))
        }),
{
    let h = hex_bytes(sha256_of(data)@);
    crate::digest::lemma_hex_len(sha256_of(data)@);
    lemma_hex_not_white(sha256_of(data)@);
    assert(!is_white(h[0]));
    assert(trimmed_start(h) == h);
    assert(!is_white(h[63]));
    assert(h.last() == h[63]);
    assert(trimmed_end(h) == h);
}

// ---------------------------------------------------------------------------
// Fetching an image
// ---------------------------------------------------------------------------

/// Where the fetching of an image stands.
pub enum FetchState {
    /// Hash the cached copy, which should have this digest.
    HashCached(String),
    /// Remove the cached copy and its digest file.
    RemoveCached,
    /// Download the image beside its place.
    Download,
    /// Put the digest of the download into the digest file. With a message,
    /// the download is not the one that was expected.
    SaveHash(String, Option<String>),
    /// Throw the download and its digest file away.
    Discard(String),
    /// Move the download to its place.
    Rename,
    /// The image is there, from the cache or not; or it could not be had.
    Done(Result<bool, String>),
}

pub ghost enum FetchView {
    HashCached(Seq<char>),
    RemoveCached,
    Download,
    SaveHash(Seq<char>, Option<Seq<char>>),
    Discard(Seq<char>),
    Rename,
    Done(Result<bool, Seq<char>>),
}

impl FetchState {
    pub open spec fn view(&self) -> FetchView {
        match self {
            FetchState::HashCached(h) => FetchView::HashCached(h@),
            FetchState::RemoveCached => FetchView::RemoveCached,
            FetchState::Download => FetchView::Download,
            FetchState::SaveHash(h, m) => FetchView::SaveHash(h@, text_of(*m)),
            FetchState::Discard(m) => FetchView::Discard(m@),
            FetchState::Rename => FetchView::Rename,
            FetchState::Done(Ok(b)) => FetchView::Done(Ok(*b)),
            FetchState::Done(Err(e)) => FetchView::Done(Err(e@)),
        }
    }
}

/// Where the fetching starts, by what is known of a cached copy.
pub open spec fn fetch_start(cache: CacheView) -> FetchView {
    match cache {
        CacheView::Absent => FetchView::Download,
        CacheView::Trusted => FetchView::Done(Ok(true)),
        CacheView::Check(h) => FetchView::HashCached(h),
    }
}

/// Where the fetching starts.
pub fn start_fetch(cache: CacheState) -> (r: FetchState)
    ensures
        r@ == fetch_start(cache@),
{
    match cache {
        CacheState::Absent => FetchState::Download,
        CacheState::Trusted => FetchState::Done(Ok(true)),
        CacheState::Check(h) => FetchState::HashCached(h),
    }
}

/// After the cached copy was hashed, if it could be read.
pub open spec fn after_hashing(s: FetchView, read: Option<Seq<u8>>) -> FetchView {
    match s {
        FetchView::HashCached(h) => if read is Some && hex_bytes(sha256_of(read->0)@) == h {
            FetchView::Done(Ok(true))
        } else {
            FetchView::RemoveCached
        },
        _ => s,
    }
}

/// The bytes that went into a digest, where there is one.
pub open spec fn bytes_hashed(hasher: Option<Hasher>) -> Option<Seq<u8>> {
    match hasher {
        Some(h) => Some(h@),
        None => None,
    }
}

/// Goes on after the cached copy was hashed, if it could be read.
pub fn cached_hashed(state: FetchState, hasher: Option<Hasher>) -> (r: FetchState)
    ensures
        r@ == after_hashing(state@, bytes_hashed(hasher)),
{
    match state {
        FetchState::HashCached(h) => {
            let good = match hasher {
                Some(x) => verify_sha256(x, h.as_str()),
                None => false,
            };
            if good {
                FetchState::Done(Ok(true))
            } else {
                FetchState::RemoveCached
            }
        },
        other => other,
    }
}

/// What the digest of a download means.
pub open spec fn downloaded(data: Seq<u8>, expected: Option<Seq<char>>) -> FetchView {
    let hash = hex_bytes(sha256_of(data)@);
    FetchView::SaveHash(
        hash,
        match expected {
            Some(x) => if x == hash {
                None
            } else {
                Some(
                    "Download corrupted: SHA256 mismatch\nExpected: "@ + x + "\nGot: "@ + hash,
                )
            },
            None => None,
        },
    )
}

/// After the download, or the message that says why there is none.
pub fn download_ended(result: Result<Download, String>, expected: &Option<String>) -> (r:
    FetchState)
    ensures
        match result {
            Ok(d) => r@ == downloaded(d@, text_of(*expected)),
            Err(e) => r@ == FetchView::Done(Err(e@)),
        },
{
    match result {
        Ok(d) => {
            let (hash, verdict) = d.finish(expected);
            match verdict {
                Ok(_) => FetchState::SaveHash(hash, None),
                Err(m) => FetchState::SaveHash(hash, Some(m)),
            }
        },
        Err(e) => FetchState::Done(Err(e)),
    }
}

/// The state after any other step. Only a failed move ends the fetching; the
/// other steps may fail without harm.
pub open spec fn fetch_after(s: FetchView, fault: Option<Seq<char>>) -> FetchView {
    match s {
        FetchView::RemoveCached => FetchView::Download,
        FetchView::SaveHash(_, None) => FetchView::Rename,
        FetchView::SaveHash(_, Some(m)) => FetchView::Discard(m),
        FetchView::Discard(m) => FetchView::Done(Err(m)),
        FetchView::Rename => match fault {
            None => FetchView::Done(Ok(false)),
            Some(e) => FetchView::Done(Err(e)),
        },
        _ => s,
    }
}

/// Goes on after any other step.
pub fn continue_fetch(state: FetchState, fault: Option<String>) -> (r: FetchState)
    ensures
        r@ == fetch_after(state@, text_of(fault)),
{
    match state {
        FetchState::RemoveCached => FetchState::Download,
        FetchState::SaveHash(_, None) => FetchState::Rename,
        FetchState::SaveHash(_, Some(m)) => FetchState::Discard(m),
        FetchState::Discard(m) => FetchState::Done(Err(m)),
        FetchState::Rename => match fault {
            None => FetchState::Done(Ok(false)),
            Some(e) => FetchState::Done(Err(e)),
        },
        other => other,
    }
}

/// A download only comes to its place if it has the digest that was expected,
/// where one was; else it is thrown away.
pub proof fn lemma_only_good_downloads_kept(data: Seq<u8>, expected: Option<Seq<char>>)
    ensures
        ({
            let hash = hex_bytes(sha256_of(data)@);
            let next = fetch_after(downloaded(data, expected), None);
            &&& next is Rename <==> (expected is None || expected->0 == hash)
            &&& next is Discard <==> (expected is Some && expected->0 != hash)
        }),
{
}

} // verus!
