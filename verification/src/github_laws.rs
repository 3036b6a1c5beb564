//! Which files of a release are taken, and when a download is kept.

use crate::digest::sha256_of;
use crate::github::{
    after_hashing, asset_names, cached_copy, downloaded, fetch_after, fetch_start, first_fit,
    first_named, first_word, fits_variant, is_hex_digit, is_sha256, FetchView, GithubAsset,
};
use crate::text::{
    ends, hex_bytes, is_white, lemma_trimmed_already, occurs, occurs_at, starts, words,
};
use crate::text_laws::{lemma_hex_bytes, lemma_parts, lemma_trimmed, lemma_words};
use vstd::prelude::*;

verus! {

/// No character of the one text occurs in the other.
pub open spec fn apart(p: Seq<char>, e: Seq<char>) -> bool {
    forall|i: int, j: int| 0 <= i < p.len() && 0 <= j < e.len() ==> #[trigger] p[i] != #[trigger] e[j]
}

proof fn lemma_apart(s: Seq<char>, e: Seq<char>, p: Seq<char>)
    requires
        apart(p, e),
        p.len() > 0,
    ensures
        occurs(s + e, p) == occurs(s, p),
        starts(s + e, p) == starts(s, p),
{
    let all = s + e;
    assert forall|i: int| #[trigger] occurs_at(all, p, i) == occurs_at(s, p, i) by {
        let n = p.len() as int;
        if occurs_at(all, p, i) {
            if i + n > s.len() {
                assert(all.subrange(i, i + n)[n - 1] == all[i + n - 1]);
                assert(all[i + n - 1] == e[i + n - 1 - s.len()]);
                assert(p[n - 1] != e[i + n - 1 - s.len()]);
            }
            assert(s.subrange(i, i + n) =~= all.subrange(i, i + n));
        }
        if occurs_at(s, p, i) {
            assert(s.subrange(i, i + n) =~= all.subrange(i, i + n));
        }
    }
    if occurs(s, p) {
        let i = choose|i: int| occurs_at(s, p, i);
        assert(occurs_at(all, p, i));
    }
}

proof fn lemma_endings()
    ensures
        apart("-clone"@, ".img.xz"@),
        apart("-clone"@, ".img.gz"@),
        apart("ArchR-R36S"@, ".img.xz"@),
        apart("ArchR-R36S"@, ".img.gz"@),
        "-clone"@.len() == 6,
        "ArchR-R36S"@.len() == 10,
{
    reveal_strlit("-clone");
    reveal_strlit("ArchR-R36S");
    reveal_strlit(".img.xz");
    reveal_strlit(".img.gz");
}

/// How an image is packed does not matter to the choice.
pub proof fn lemma_either_packing(stem: Seq<char>, variant: Seq<char>)
    ensures
        fits_variant(stem + ".img.gz"@, variant) <==> fits_variant(stem + ".img.xz"@, variant),
{
    lemma_endings();
    lemma_apart(stem, ".img.gz"@, "-clone"@);
    lemma_apart(stem, ".img.xz"@, "-clone"@);
    lemma_apart(stem, ".img.gz"@, "ArchR-R36S"@);
    lemma_apart(stem, ".img.xz"@, "ArchR-R36S"@);
    lemma_parts(stem + ".img.gz"@, ".img.gz"@);
    lemma_parts(stem + ".img.xz"@, ".img.xz"@);
}

/// For the clone variant the images are taken that have "-clone" in their
/// names.
pub proof fn lemma_clone_images(a: Seq<char>, b: Seq<char>)
    ensures
        fits_variant(a + "-clone"@ + b + ".img.gz"@, "clone"@),
        fits_variant(a + "-clone"@ + b + ".img.xz"@, "clone"@),
{
    let s = a + "-clone"@ + b;
    lemma_endings();
    lemma_parts(s, "-clone"@);
    lemma_apart(s, ".img.gz"@, "-clone"@);
    lemma_apart(s, ".img.xz"@, "-clone"@);
    lemma_parts(s + ".img.gz"@, ".img.gz"@);
    lemma_parts(s + ".img.xz"@, ".img.xz"@);
}

/// For every other variant the images are taken that start with "ArchR-R36S"
/// and have no "-clone" in their names.
pub proof fn lemma_original_images(x: Seq<char>, variant: Seq<char>)
    requires
        variant != "clone"@,
        forall|a: Seq<char>, b: Seq<char>|
            "ArchR-R36S"@ + x != #[trigger] (a + "-clone"@ + b),
    ensures
        fits_variant("ArchR-R36S"@ + x + ".img.gz"@, variant),
        fits_variant("ArchR-R36S"@ + x + ".img.xz"@, variant),
{
    let s = "ArchR-R36S"@ + x;
    lemma_endings();
    lemma_parts(s, "-clone"@);
    lemma_parts(s, "ArchR-R36S"@);
    lemma_apart(s, ".img.gz"@, "-clone"@);
    lemma_apart(s, ".img.xz"@, "-clone"@);
    lemma_apart(s, ".img.gz"@, "ArchR-R36S"@);
    lemma_apart(s, ".img.xz"@, "ArchR-R36S"@);
    lemma_parts(s + ".img.gz"@, ".img.gz"@);
    lemma_parts(s + ".img.xz"@, ".img.xz"@);
}

/// Nothing else is taken: a file of another ending for no variant, and no
/// file both for the clone variant and for another.
pub proof fn lemma_nothing_else(name: Seq<char>, variant: Seq<char>)
    requires
        fits_variant(name, variant),
    ensures
        exists|stem: Seq<char>|
            name == #[trigger] (stem + ".img.xz"@) || name == stem + ".img.gz"@,
        variant == "clone"@ ==> exists|a: Seq<char>, b: Seq<char>|
            name == #[trigger] (a + "-clone"@ + b),
        variant != "clone"@ ==> !fits_variant(name, "clone"@) && exists|x: Seq<char>|
            name == #[trigger] ("ArchR-R36S"@ + x),
{
    lemma_parts(name, ".img.xz"@);
    lemma_parts(name, ".img.gz"@);
    lemma_parts(name, "-clone"@);
    lemma_parts(name, "ArchR-R36S"@);
    if ends(name, ".img.xz"@) {
        let stem = choose|a: Seq<char>| name == #[trigger] (a + ".img.xz"@);
        assert(name == stem + ".img.xz"@);
    } else {
        let stem = choose|a: Seq<char>| name == #[trigger] (a + ".img.gz"@);
        let t = stem + ".img.xz"@;
        assert(name == stem + ".img.gz"@);
        assert(t == stem + ".img.xz"@);
    }
}

/// Of the files that fit, the first is taken; there is one if any fits.
pub proof fn lemma_first_taken(names: Seq<Seq<char>>, variant: Seq<char>, from: int)
    requires
        0 <= from,
    ensures
        match first_fit(names, variant, from) {
            Some(i) => from <= i < names.len() && fits_variant(names[i], variant) && forall|j: int|
                from <= j < i ==> !fits_variant(#[trigger] names[j], variant),
            None => forall|j: int|
                from <= j < names.len() ==> !fits_variant(#[trigger] names[j], variant),
        },
    decreases names.len() - from,
{
    if from < names.len() && !fits_variant(names[from], variant) {
        lemma_first_taken(names, variant, from + 1);
    }
}

/// The names that are chosen from are those of the files, in their order.
pub proof fn lemma_asset_names(assets: Seq<GithubAsset>, i: int)
    requires
        0 <= i < assets.len(),
    ensures
        asset_names(assets).len() == assets.len(),
        asset_names(assets)[i] == assets[i].name@,
{
}

/// The digest file is the first one of its name.
pub proof fn lemma_first_of_name(names: Seq<Seq<char>>, name: Seq<char>, from: int)
    requires
        0 <= from,
    ensures
        match first_named(names, name, from) {
            Some(i) => from <= i < names.len() && names[i] == name && forall|j: int|
                from <= j < i ==> #[trigger] names[j] != name,
            None => forall|j: int| from <= j < names.len() ==> #[trigger] names[j] != name,
        },
    decreases names.len() - from,
{
    if from < names.len() && names[from] != name {
        lemma_first_of_name(names, name, from + 1);
    }
}

/// The digest of any data, written out, counts as a digest.
pub proof fn lemma_digest_text(b: Seq<u8>)
    requires
        b.len() == 32,
    ensures
        is_sha256(hex_bytes(b)),
{
    let s = hex_bytes(b);
    lemma_hex_bytes(b, 0);
    assert forall|i: int| 0 <= i < s.len() implies is_hex_digit(#[trigger] s[i]) by {
        lemma_hex_bytes(b, i / 2);
        assert(i == 2 * (i / 2) || i == 2 * (i / 2) + 1);
    }
}

/// A digest is sixty-four digits from zero to nine and from a to f, small or
/// capital, and nothing else is one.
pub proof fn lemma_digest_digits(s: Seq<char>)
    ensures
        is_sha256(s) <==> s.len() == 64 && forall|i: int|
            0 <= i < 64 ==> "0123456789abcdefABCDEF"@.contains(#[trigger] s[i]),
{
    reveal_strlit("0123456789abcdefABCDEF");
    let t = "0123456789abcdefABCDEF"@;
    assert forall|c: char| is_hex_digit(c) == #[trigger] t.contains(c) by {
        if '0' <= c <= '9' {
            assert(t[c as int - 48] == c);
        } else if 'a' <= c <= 'f' {
            assert(t[c as int - 87] == c);
        } else if 'A' <= c <= 'F' {
            assert(t[c as int - 49] == c);
        }
    }
    if is_sha256(s) {
        assert forall|i: int| 0 <= i < 64 implies t.contains(#[trigger] s[i]) by {
            assert(is_hex_digit(s[i]));
        }
    }
    if s.len() == 64 && forall|i: int| 0 <= i < 64 ==> t.contains(#[trigger] s[i]) {
        assert forall|i: int| 0 <= i < s.len() implies is_hex_digit(#[trigger] s[i]) by {
            assert(t.contains(s[i]));
        }
    }
}

/// A digest file says a digest first; what follows it, such as the name of a
/// file, does not count, nor does white space.
pub proof fn lemma_digest_file(hash: Seq<char>, c: char, rest: Seq<char>)
    requires
        hash.len() > 0,
        forall|i: int| 0 <= i < hash.len() ==> !is_white(#[trigger] hash[i]),
        is_white(c),
    ensures
        first_word(hash + seq![c] + rest) == hash,
        first_word(seq![c] + hash + seq![c] + rest) == hash,
        first_word(hash) == hash,
        first_word(Seq::<char>::empty()) == Seq::<char>::empty(),
{
    lemma_words(hash, c, rest);
    lemma_trimmed_already(hash);
    assert(words(hash) == seq![hash]);
    assert((seq![hash] + words(rest))[0] == hash);
    let none = Seq::<char>::empty();
    let t = hash + seq![c] + rest;
    lemma_words(none, c, t);
    assert(none + seq![c] + t =~= seq![c] + hash + seq![c] + rest);
    assert(words(none) + words(t) =~= words(t));
}

/// A cached image is looked at only if it has the size of the release. It is
/// used as it is if it has no digest file, and held against the digest that
/// its file holds; an empty digest file is worth nothing.
pub proof fn lemma_cache(
    size: Option<u64>,
    wanted: u64,
    before: Seq<char>,
    hash: Seq<char>,
    after: Seq<char>,
)
    requires
        forall|i: int| 0 <= i < before.len() ==> is_white(#[trigger] before[i]),
        forall|i: int| 0 <= i < after.len() ==> is_white(#[trigger] after[i]),
        hash.len() > 0 ==> !is_white(hash[0]) && !is_white(hash.last()),
    ensures
        ({
            let stored = before + hash + after;
            &&& size is None || size->0 != wanted ==> fetch_start(
                cached_copy(size, wanted, Some(stored)),
            ) == FetchView::Download && fetch_start(cached_copy(size, wanted, None))
                == FetchView::Download
            &&& size == Some(wanted) ==> fetch_start(cached_copy(size, wanted, None))
                == FetchView::Done(Ok(true))
            &&& size == Some(wanted) && hash.len() > 0 ==> fetch_start(
                cached_copy(size, wanted, Some(stored)),
            ) == FetchView::HashCached(hash)
            &&& size == Some(wanted) && hash.len() == 0 ==> fetch_start(
                cached_copy(size, wanted, Some(stored)),
            ) == FetchView::Download
        }),
{
    lemma_trimmed(before, hash, after);
}

/// A cached image with a digest file is used if its bytes have that digest;
/// else it is removed and downloaded again.
pub proof fn lemma_cache_checked(hash: Seq<char>, read: Option<Seq<u8>>, fault: Option<Seq<char>>)
    ensures
        ({
            let next = after_hashing(FetchView::HashCached(hash), read);
            &&& next == FetchView::Done(Ok(true)) <==> read is Some && hex_bytes(
                sha256_of(read->0)@,
            ) == hash
            &&& next != FetchView::Done(Ok(true)) ==> fetch_after(next, fault)
                == FetchView::Download
        }),
{
}

/// A download ends well only if it has the expected digest, where one is
/// known, and can be moved to its place; its digest is what is stored. Else
/// the run ends with a message.
pub proof fn lemma_download_ends(
    data: Seq<u8>,
    expected: Option<Seq<char>>,
    saved: Option<Seq<char>>,
    moved: Option<Seq<char>>,
)
    ensures
        ({
            let hash = hex_bytes(sha256_of(data)@);
            let first = downloaded(data, expected);
            let last = fetch_after(fetch_after(first, saved), moved);
            &&& first matches FetchView::SaveHash(h, _) && h == hash
            &&& expected is None || expected == Some(hash) ==> last == (match moved {
                None => FetchView::Done(Ok(false)),
                Some(e) => FetchView::Done(Err(e)),
            })
            &&& expected is Some && expected != Some(hash) ==> last == FetchView::Done(
                Err(
                    "Download corrupted: SHA256 mismatch\nExpected: "@ + expected->0 + "\nGot: "@
                        + hash,
                ),
            )
        }),
{
}

/// A run that has ended stays ended.
pub proof fn lemma_fetch_ended(
    r: Result<bool, Seq<char>>,
    read: Option<Seq<u8>>,
    fault: Option<Seq<char>>,
)
    ensures
        after_hashing(FetchView::Done(r), read) == FetchView::Done(r),
        fetch_after(FetchView::Done(r), fault) == FetchView::Done(r),
{
}

} // verus!
