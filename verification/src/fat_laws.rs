//! What holds of every file that is read out of a FAT32 boot partition.

use crate::bytes::{le_half, le_word};
use crate::fat::{
    chain, chain_limit, chain_on, dtbo_bytes, dtbo_in, entry_named, entry_of, found_after,
    found_from, geometry, latin, lfn_offset, lfn_part, scan, short_name, sound, Entry, FileView,
    Geometry, Stage,
};
use crate::text::{ascii_lower, ascii_upper, joined, pieces, same_folded, trimmed, upper_form};
use crate::text_laws::{lemma_joined_pieces, lemma_same_folded, lemma_trimmed};
use vstd::prelude::*;
use vstd::utf8::*;

verus! {

// ---------------------------------------------------------------------------
// The boot sector
// ---------------------------------------------------------------------------

/// The number in two bytes, the low one first.
pub open spec fn two(b: Seq<u8>, i: int) -> int {
    b[i] + 256 * b[i + 1]
}

/// The number in four bytes, the low one first.
pub open spec fn quad(b: Seq<u8>, i: int) -> int {
    two(b, i) + 65536 * two(b, i + 2)
}

proof fn lemma_numbers(b: Seq<u8>, i: int)
    ensures
        le_half(b, i) == two(b, i),
        le_word(b, i) == quad(b, i),
{
}

/// A boot sector is taken exactly if it has its signature and its sectors,
/// clusters and tables have a size. The tables start behind the reserved
/// sectors, and the data behind all the tables, as many as there are.
pub proof fn lemma_boot_sector(b: Seq<u8>)
    requires
        b.len() == 512,
    ensures
        geometry(b) is Ok <==> b[510] == 0x55 && b[511] == 0xaa && two(b, 11) != 0 && b[13] != 0
            && quad(b, 36) != 0,
        geometry(b) matches Ok(g) ==> {
            &&& g.cluster_size == b[13] * two(b, 11)
            &&& g.fat_start == 16 * 1024 * 1024 + two(b, 14) * two(b, 11)
            &&& g.data_start - g.fat_start == b[16] * quad(b, 36) * two(b, 11)
            &&& g.root_cluster == quad(b, 44)
        },
        geometry(b) matches Err(e) ==> e == (if b[510] != 0x55 || b[511] != 0xaa {
            "Invalid boot sector signature"@
        } else {
            "Invalid FAT32 BPB parameters"@
        }),
{
    lemma_numbers(b, 11);
    lemma_numbers(b, 14);
    lemma_numbers(b, 36);
    lemma_numbers(b, 44);
    let s = two(b, 11);
    let p = quad(b, 36);
    let n = b[16] as int;
    let c = b[13] as int;
    let r = two(b, 14);
    assert(0 <= s <= 0xffff);
    assert(0 <= p <= 0xffff_ffff);
    assert(0 <= s * c <= 0xffff * 0xff) by (nonlinear_arith)
        requires
            0 <= s <= 0xffff,
            0 <= c <= 0xff,
    ;
    assert(s * c == c * s) by (nonlinear_arith);
    assert(0 <= r * s <= 0xffff * 0xffff) by (nonlinear_arith)
        requires
            0 <= s <= 0xffff,
            0 <= r <= 0xffff,
    ;
    assert(0 <= n * p <= 0xff * 0xffff_ffff) by (nonlinear_arith)
        requires
            0 <= n <= 0xff,
            0 <= p <= 0xffff_ffff,
    ;
    let t = n * p;
    assert(0 <= t * s <= 0xff * 0xffff_ffff * 0xffff) by (nonlinear_arith)
        requires
            0 <= t <= 0xff * 0xffff_ffff,
            0 <= s <= 0xffff,
    ;
}

// ---------------------------------------------------------------------------
// Chains
// ---------------------------------------------------------------------------

/// The table of the image leads from one cluster to the next: the low
/// twenty-eight bits of its entry.
pub open spec fn leads(img: Seq<u8>, g: Geometry, c: u32, next: u32) -> bool {
    let at = g.fat_start + 4 * c;
    &&& at + 4 <= img.len()
    &&& next == img[at] + 256 * img[at + 1] + 65536 * img[at + 2] + 16777216 * (img[at + 3] % 16)
}

/// The bytes of a cluster; the first of the data area is number two.
pub open spec fn cluster_of(img: Seq<u8>, g: Geometry, c: u32) -> Seq<u8> {
    let at = g.data_start + g.cluster_size * (c - 2);
    img.subrange(at, at + g.cluster_size)
}

/// The clusters of a file or a directory: each inside the image, and each but
/// the last leading to the next.
pub open spec fn linked(img: Seq<u8>, g: Geometry, cs: Seq<u32>) -> bool {
    &&& forall|i: int|
        0 <= i < cs.len() ==> 2 <= (#[trigger] cs[i]) < 0x0fff_fff8 && g.data_start + g.cluster_size * (
        cs[i] - 1) <= img.len()
    &&& forall|i: int, j: int|
        0 <= i && j == i + 1 && j < cs.len() ==> #[trigger] leads(img, g, cs[i], cs[j])
}

/// The clusters one after the other.
pub open spec fn clusters(img: Seq<u8>, g: Geometry, cs: Seq<u32>) -> Seq<u8>
    decreases cs.len(),
{
    if cs.len() == 0 {
        Seq::empty()
    } else {
        cluster_of(img, g, cs[0]) + clusters(img, g, cs.skip(1))
    }
}

/// A chain is read as its clusters, in the order in which the table links
/// them, up to one whose entry ends it.
#[verifier::rlimit(40)]
pub proof fn lemma_chain_read(img: Seq<u8>, g: Geometry, cs: Seq<u32>, end: u32, k: nat)
    requires
        cs.len() > 0,
        cs.len() <= k,
        linked(img, g, cs),
        leads(img, g, cs.last(), end),
        end < 2 || end >= 0x0fff_fff8,
    ensures
        chain(img, g, cs[0], k) == Some(Ok::<Seq<u8>, Seq<char>>(clusters(img, g, cs))),
        chain(img, g, end, k) == Some(Ok::<Seq<u8>, Seq<char>>(Seq::empty())),
        cs.len() <= 0x0fff_fff8 && k == 0x0fff_fff8 ==> read_from(
            img,
            g,
            cs[0],
            clusters(img, g, cs),
        ),
    decreases cs.len(),
{
    let c = cs[0];
    let at = g.data_start + (c - 2) * g.cluster_size;
    assert(at == g.data_start + g.cluster_size * (c - 2)) by (nonlinear_arith)
        requires
            at == g.data_start + (c - 2) * g.cluster_size,
    ;
    assert(at + g.cluster_size == g.data_start + g.cluster_size * (c - 1)) by (nonlinear_arith)
        requires
            at == g.data_start + g.cluster_size * (c - 2),
    ;
    assert(2 <= cs[0] < 0x0fff_fff8);
    let next = if cs.len() == 1 {
        end
    } else {
        cs[1]
    };
    assert(leads(img, g, c, next)) by {
        if cs.len() == 1 {
            assert(cs.last() == c);
        } else {
            assert(leads(img, g, cs[0], cs[1]));
        }
    }
    lemma_next(img, g, c, next);
    let rest = cs.skip(1);
    if cs.len() == 1 {
        assert(rest =~= Seq::<u32>::empty());
        assert(clusters(img, g, rest) =~= Seq::<u8>::empty());
        assert(chain(img, g, end, (k - 1) as nat) == Some(
            Ok::<Seq<u8>, Seq<char>>(clusters(img, g, rest)),
        ));
    } else {
        assert forall|i: int| 0 <= i < rest.len() implies 2 <= (#[trigger] rest[i]) < 0x0fff_fff8
            && g.data_start + g.cluster_size * (rest[i] - 1) <= img.len() by {
            assert(rest[i] == cs[i + 1]);
        }
        assert forall|i: int, j: int|
            0 <= i && j == i + 1 && j < rest.len() implies #[trigger] leads(
            img,
            g,
            rest[i],
            rest[j],
        ) by {
            assert(rest[i] == cs[i + 1] && rest[j] == cs[j + 1]);
            assert(leads(img, g, cs[i + 1], cs[j + 1]));
        }
        assert(rest.last() == cs.last());
        lemma_chain_read(img, g, rest, end, (k - 1) as nat);
        assert(rest[0] == cs[1]);
    }
}

proof fn lemma_next(img: Seq<u8>, g: Geometry, c: u32, next: u32)
    requires
        leads(img, g, c, next),
    ensures
        forall|k: nat| #[trigger] chain_on(img, g, c, k) == chain(img, g, next, k),
{
    let at = g.fat_start + 4 * c;
    let b = img.subrange(at, at + 4);
    lemma_numbers(b, 0);
    let low = b[0] + 256 * b[1] + 65536 * b[2];
    assert(quad(b, 0) == low + 16777216 * b[3]);
    assert(quad(b, 0) % 0x1000_0000 == low + 16777216 * (b[3] % 16));
    assert(crate::fat::next_cluster(b) == next);
}

/// A cluster behind the end of the image cannot be read, nor can a table
/// entry there.
pub proof fn lemma_chain_short(img: Seq<u8>, g: Geometry, c: u32, k: nat)
    requires
        2 <= c < 0x0fff_fff8,
        k > 0,
    ensures
        g.data_start + g.cluster_size * (c - 1) > img.len() ==> chain(img, g, c, k) == Some(
            Err::<Seq<u8>, Seq<char>>("Data read: failed to fill whole buffer"@),
        ),
        g.data_start + g.cluster_size * (c - 1) <= img.len() && g.fat_start + 4 * c + 4 > img.len()
            ==> chain(img, g, c, k) == Some(
            Err::<Seq<u8>, Seq<char>>("FAT read: failed to fill whole buffer"@),
        ),
{
    let at = g.data_start + (c - 2) * g.cluster_size;
    assert(at + g.cluster_size == g.data_start + g.cluster_size * (c - 1)) by (nonlinear_arith)
        requires
            at == g.data_start + (c - 2) * g.cluster_size,
    ;
    reveal_strlit("Data read: ");
    reveal_strlit("FAT read: ");
    reveal_strlit("failed to fill whole buffer");
    reveal_strlit("Data read: failed to fill whole buffer");
    reveal_strlit("FAT read: failed to fill whole buffer");
    assert("Data read: "@ + "failed to fill whole buffer"@
        =~= "Data read: failed to fill whole buffer"@);
    assert("FAT read: "@ + "failed to fill whole buffer"@
        =~= "FAT read: failed to fill whole buffer"@);
}

// ---------------------------------------------------------------------------
// Directories
// ---------------------------------------------------------------------------

/// Where the characters of a long-name slot stand.
pub open spec fn unit_places() -> Seq<int> {
    seq![1, 3, 5, 7, 9, 14, 16, 18, 20, 22, 24, 28, 30]
}

/// A long-name slot holds the text, with a zero or the filler behind it unless
/// it is full.
pub open spec fn holds_part(e: Seq<u8>, part: Seq<char>) -> bool {
    &&& part.len() <= 13
    &&& forall|k: int|
        0 <= k < part.len() ==> 0 < (#[trigger] part[k]) as int && part[k] as int <= 0xfffe
    &&& forall|k: int| 0 <= k < part.len() ==> #[trigger] part[k] as int == two(e, unit_places()[k])
    &&& part.len() < 13 ==> two(e, unit_places()[part.len() as int]) == 0 || two(
        e,
        unit_places()[part.len() as int],
    ) == 0xffff
}

proof fn lemma_places(k: int)
    requires
        0 <= k < 13,
    ensures
        lfn_offset(k) == unit_places()[k],
{
    assert(k == 0 || k == 1 || k == 2 || k == 3 || k == 4 || k == 5 || k == 6 || k == 7 || k == 8 || k
        == 9 || k == 10 || k == 11 || k == 12);
}

proof fn lemma_scalar(c: char)
    ensures
        c as int <= 0xd7ff || 0xe000 <= c as int,
{
}

proof fn lemma_part_from(e: Seq<u8>, part: Seq<char>, k: int)
    requires
        holds_part(e, part),
        0 <= k <= part.len(),
    ensures
        lfn_part(e, k) == part.skip(k),
    decreases part.len() - k,
{
    if k == part.len() {
        assert(part.skip(k) =~= Seq::<char>::empty());
        if k < 13 {
            lemma_places(k);
            lemma_numbers(e, lfn_offset(k));
        }
    } else {
        lemma_places(k);
        lemma_numbers(e, lfn_offset(k));
        lemma_part_from(e, part, k + 1);
        let c = part[k];
        lemma_scalar(c);
        assert(le_half(e, lfn_offset(k)) as int == c as int);
        assert(le_half(e, lfn_offset(k)) as char == c);
        assert(part.skip(k) =~= seq![c] + part.skip(k + 1));
    }
}

/// A slot of long-name text is read as that text.
pub proof fn lemma_long_slot(e: Seq<u8>, part: Seq<char>)
    requires
        holds_part(e, part),
    ensures
        lfn_part(e, 0) == part,
{
    lemma_part_from(e, part, 0);
    assert(part.skip(0) =~= part);
}

/// A unit that is half of a character beyond the basic plane is left out.
pub proof fn lemma_half_left_out(e: Seq<u8>, k: int)
    requires
        0 <= k < 13,
        0xd800 <= two(e, unit_places()[k]) <= 0xdfff,
    ensures
        lfn_part(e, k) == lfn_part(e, k + 1),
{
    lemma_places(k);
    lemma_numbers(e, lfn_offset(k));
}

/// Text of `n` bytes from `at` on, filled up with spaces.
pub open spec fn padded_text(e: Seq<u8>, at: int, n: int, s: Seq<char>) -> bool {
    &&& s.len() <= n
    &&& forall|k: int| 0 <= k < s.len() ==> ' ' <= (#[trigger] s[k]) <= '~' && s[k] as int == e[at + k]
    &&& forall|k: int| s.len() <= k < n ==> #[trigger] e[at + k] == 0x20
    &&& s.len() > 0 ==> s[0] != ' ' && s.last() != ' '
}

proof fn lemma_padded_text(e: Seq<u8>, at: int, n: int, s: Seq<char>)
    requires
        padded_text(e, at, n, s),
        0 <= at,
        0 <= n,
        at + n <= e.len(),
    ensures
        trimmed(latin(e.subrange(at, at + n))) == s,
{
    let pad = Seq::new((n - s.len()) as nat, |i: int| ' ');
    let none = Seq::<char>::empty();
    let t = latin(e.subrange(at, at + n));
    assert forall|k: int| 0 <= k < n implies t[k] == (none + s + pad)[k] by {
        if k < s.len() {
            assert(s[k] as int == e[at + k]);
        } else {
            assert(e[at + k] == 0x20);
        }
    }
    assert(t =~= none + s + pad);
    if s.len() > 0 {
        assert(' ' <= s[0] <= '~');
        assert(' ' <= s[s.len() - 1] <= '~');
    }
    lemma_trimmed(none, s, pad);
}

/// The name that a base and an extension make.
pub open spec fn dotted(base: Seq<char>, ext: Seq<char>) -> Seq<char> {
    if ext.len() == 0 {
        base
    } else {
        base + seq!['.'] + ext
    }
}

/// A file or a directory in a directory: its slots of long-name text, the
/// last text first, and the slot with its short name. A deleted slot stands
/// alone.
pub ghost struct Item {
    pub deleted: bool,
    pub parts: Seq<Seq<char>>,
    pub base: Seq<char>,
    pub ext: Seq<char>,
    pub slots: Seq<Seq<u8>>,
}

/// The long name: the texts from the last slot to the first.
pub open spec fn long_name(parts: Seq<Seq<char>>) -> Seq<char>
    decreases parts.len(),
{
    if parts.len() == 0 {
        Seq::empty()
    } else {
        parts.last() + long_name(parts.drop_last())
    }
}

pub open spec fn well_laid(it: Item) -> bool {
    let n = it.parts.len() as int;
    let last = it.slots[n];
    &&& forall|j: int| 0 <= j < it.slots.len() ==> (#[trigger] it.slots[j]).len() == 32
    &&& it.slots.len() == n + 1
    &&& it.deleted ==> n == 0 && last[0] == 0xe5
    &&& forall|j: int|
        0 <= j < n ==> {
            let e = #[trigger] it.slots[j];
            &&& e[0] != 0 && e[0] != 0xe5 && e[11] == 0x0f
            &&& e[0] / 64 % 2 == 1 <==> j == 0
            &&& holds_part(e, it.parts[j])
        }
    &&& !it.deleted ==> last[0] != 0 && last[0] != 0xe5 && last[11] != 0x0f && padded_text(
        last,
        0,
        8,
        it.base,
    ) && padded_text(last, 8, 3, it.ext)
}

/// The bytes of items one after the other.
pub open spec fn dir_bytes(items: Seq<Item>) -> Seq<u8>
    decreases items.len(),
{
    if items.len() == 0 {
        Seq::empty()
    } else {
        slot_bytes(items[0].slots) + dir_bytes(items.skip(1))
    }
}

pub open spec fn slot_bytes(slots: Seq<Seq<u8>>) -> Seq<u8>
    decreases slots.len(),
{
    if slots.len() == 0 {
        Seq::empty()
    } else {
        slots[0] + slot_bytes(slots.skip(1))
    }
}

/// An item answers to a name: its long name, or its short one, is that name
/// but for the case of the letters.
pub open spec fn answers(it: Item, name: Seq<char>) -> bool {
    !it.deleted && (it.parts.len() > 0 && long_name(it.parts).len() > 0 && same_folded(
        long_name(it.parts),
        name,
    ) || same_folded(dotted(it.base, it.ext), name))
}

/// What the entry of an item says: its first cluster, its size, and whether
/// it is a directory.
pub open spec fn says(e: Seq<u8>, x: Entry) -> bool {
    &&& x.cluster == two(e, 26) + 65536 * two(e, 20)
    &&& x.size == quad(e, 28)
    &&& x.is_dir <==> e[11] as int / 16 % 2 == 1
}

proof fn lemma_says(e: Seq<u8>)
    ensures
        says(e, entry_of(e)),
{
    lemma_numbers(e, 20);
    lemma_numbers(e, 26);
    lemma_numbers(e, 28);
}

/// Looking up a name in a directory finds the first item that answers to it,
/// and nothing if none does. Names are found by their long form and their
/// short one; what was deleted is not found.
pub proof fn lemma_directory(items: Seq<Item>, end: Seq<u8>, name: Seq<char>)
    requires
        forall|i: int| 0 <= i < items.len() ==> well_laid(#[trigger] items[i]),
        end.len() < 32 || end[0] == 0,
        is_ascii_chars(name),
    ensures
        ({
            let r = entry_named(dir_bytes(items) + end, name);
            &&& (forall|i: int| 0 <= i < items.len() ==> !answers(#[trigger] items[i], name)) ==> r
                is None
            &&& forall|k: int|
                0 <= k < items.len() && answers(#[trigger] items[k], name) && (forall|j: int|
                    0 <= j < k ==> !answers(#[trigger] items[j], name)) ==> r is Some && says(
                    items[k].slots.last(),
                    r->0,
                )
        }),
{
    let dir = dir_bytes(items) + end;
    let upper = upper_form(name);
    assert(dir.skip(0) =~= dir);
    lemma_scan_items(dir, 0, items, end, name);
}

proof fn lemma_folded_upper(a: Seq<char>, name: Seq<char>)
    requires
        is_ascii_chars(name),
    ensures
        same_folded(a, upper_form(name)) == same_folded(a, name),
{
    let u = upper_form(name);
    lemma_same_folded(a, u);
    lemma_same_folded(a, name);
    assert forall|i: int| 0 <= i < name.len() implies ascii_lower(#[trigger] u[i]) == ascii_lower(
        name[i],
    ) by {
        assert(u[i] == ascii_upper(name[i]));
    }
    assert(u.len() == name.len());
    if same_folded(a, name) {
        assert forall|i: int| 0 <= i < a.len() implies ascii_lower(#[trigger] a[i]) == ascii_lower(
            u[i],
        ) by {
            assert(ascii_lower(u[i]) == ascii_lower(name[i]));
        }
    }
    if same_folded(a, u) {
        assert forall|i: int| 0 <= i < a.len() implies ascii_lower(#[trigger] a[i]) == ascii_lower(
            name[i],
        ) by {
            assert(ascii_lower(u[i]) == ascii_lower(name[i]));
        }
    }
}

proof fn lemma_upper_short(s: Seq<char>, x: Seq<char>)
    requires
        is_ascii_chars(s),
    ensures
        same_folded(upper_form(s), x) == same_folded(s, x),
{
    let u = upper_form(s);
    lemma_same_folded(u, x);
    lemma_same_folded(s, x);
    assert(u.len() == s.len());
    assert forall|i: int| 0 <= i < s.len() implies ascii_lower(#[trigger] u[i]) == ascii_lower(
        s[i],
    ) by {
        assert(u[i] == ascii_upper(s[i]));
    }
    if same_folded(s, x) {
        assert forall|i: int| 0 <= i < u.len() implies ascii_lower(#[trigger] u[i]) == ascii_lower(
            x[i],
        ) by {
            assert(ascii_lower(s[i]) == ascii_lower(x[i]));
        }
    }
    if same_folded(u, x) {
        assert forall|i: int| 0 <= i < s.len() implies ascii_lower(#[trigger] s[i]) == ascii_lower(
            x[i],
        ) by {
            assert(ascii_lower(u[i]) == ascii_lower(x[i]));
        }
    }
}

proof fn lemma_short(e: Seq<u8>, base: Seq<char>, ext: Seq<char>)
    requires
        e.len() == 32,
        padded_text(e, 0, 8, base),
        padded_text(e, 8, 3, ext),
    ensures
        short_name(e) == dotted(base, ext),
        is_ascii_chars(dotted(base, ext)),
{
    lemma_padded_text(e, 0, 8, base);
    lemma_padded_text(e, 8, 3, ext);
    reveal_strlit(".");
    assert("."@ =~= seq!['.']);
    let d = dotted(base, ext);
    assert forall|i: int| 0 <= i < d.len() implies 0 <= #[trigger] d[i] as int && d[i] as int <= 0x7f by {
        if i < base.len() {
            assert(d[i] == base[i]);
        } else if i > base.len() {
            assert(d[i] == ext[i - base.len() - 1]);
        }
    }
}

/// The slots of long-name text from the `j`-th on, and what was read before.
proof fn lemma_scan_long(
    dir: Seq<u8>,
    pos: int,
    it: Item,
    j: int,
    more: Seq<u8>,
    lfn: Seq<char>,
    upper: Seq<char>,
)
    requires
        well_laid(it),
        !it.deleted,
        0 <= j <= it.parts.len(),
        0 <= pos <= dir.len(),
        dir.skip(pos) == slot_bytes(it.slots.skip(j)) + more,
        j > 0 ==> lfn == long_name(it.parts.take(j)),
        j == 0 && it.parts.len() == 0 ==> lfn == Seq::<char>::empty(),
    ensures
        ({
            let at = pos + 32 * (it.parts.len() - j);
            &&& 0 <= at <= dir.len()
            &&& scan(dir, pos, lfn, upper) == scan(dir, at, long_name(it.parts), upper)
            &&& dir.skip(at) == it.slots.last() + more
        }),
    decreases it.parts.len() - j,
{
    let rest = it.slots.skip(j);
    let e = it.slots[j];
    assert(rest[0] == e);
    assert(rest.skip(1) =~= it.slots.skip(j + 1));
    let tail = dir.skip(pos);
    assert(tail =~= e + (slot_bytes(it.slots.skip(j + 1)) + more));
    if j == it.parts.len() {
        assert(it.parts.take(j) =~= it.parts);
        assert(it.slots.skip(j + 1) =~= Seq::<Seq<u8>>::empty());
        assert(slot_bytes(it.slots.skip(j + 1)) =~= Seq::<u8>::empty());
        assert(tail =~= e + more);
    } else {
        assert(dir.subrange(pos, pos + 32) =~= e) by {
            assert forall|k: int| 0 <= k < 32 implies dir.subrange(pos, pos + 32)[k] == e[k] by {
                assert(dir[pos + k] == tail[k]);
            }
        }
        lemma_long_slot(e, it.parts[j]);
        let before = if j == 0 {
            Seq::<char>::empty()
        } else {
            lfn
        };
        let now = it.parts[j] + before;
        let upto_j = it.parts.take(j + 1);
        assert(upto_j.last() == it.parts[j]);
        assert(upto_j.drop_last() =~= it.parts.take(j));
        if j == 0 {
            assert(it.parts.take(0) =~= Seq::<Seq<char>>::empty());
            assert(long_name(it.parts.take(0)) =~= Seq::<char>::empty());
        }
        assert(now == long_name(upto_j));
        assert(scan(dir, pos, lfn, upper) == scan(dir, pos + 32, now, upper));
        assert(dir.skip(pos + 32) =~= slot_bytes(it.slots.skip(j + 1)) + more) by {
            let m = slot_bytes(it.slots.skip(j + 1)) + more;
            assert forall|k: int| 0 <= k < dir.skip(pos + 32).len() implies dir.skip(pos + 32)[k]
                == m[k] by {
                assert(dir[pos + 32 + k] == tail[32 + k]);
            }
        }
        lemma_scan_long(dir, pos + 32, it, j + 1, more, now, upper);
    }
}

#[verifier::rlimit(40)]
proof fn lemma_scan_items(dir: Seq<u8>, pos: int, items: Seq<Item>, end: Seq<u8>, name: Seq<char>)
    requires
        forall|i: int| 0 <= i < items.len() ==> well_laid(#[trigger] items[i]),
        end.len() < 32 || end[0] == 0,
        is_ascii_chars(name),
        0 <= pos <= dir.len(),
        dir.skip(pos) == dir_bytes(items) + end,
    ensures
        ({
            let r = scan(dir, pos, Seq::empty(), upper_form(name));
            &&& (forall|i: int| 0 <= i < items.len() ==> !answers(#[trigger] items[i], name)) ==> r
                is None
            &&& forall|k: int|
                0 <= k < items.len() && answers(#[trigger] items[k], name) && (forall|j: int|
                    0 <= j < k ==> !answers(#[trigger] items[j], name)) ==> r is Some && says(
                    items[k].slots.last(),
                    r->0,
                )
        }),
    decreases items.len(),
{
    let upper = upper_form(name);
    let none = Seq::<char>::empty();
    let tail = dir.skip(pos);
    let r = scan(dir, pos, none, upper);
    if items.len() == 0 {
        assert(tail =~= end);
        if end.len() >= 32 {
            assert(dir.subrange(pos, pos + 32)[0] == tail[0]);
        }
    } else {
        let it = items[0];
        let n = it.parts.len() as int;
        let rest = items.skip(1);
        let more = dir_bytes(rest) + end;
        assert(well_laid(it));
        assert(tail =~= slot_bytes(it.slots) + more);
        assert(it.slots.skip(0) =~= it.slots);
        if it.deleted {
            assert(it.parts =~= Seq::<Seq<char>>::empty());
            assert(it.slots.skip(1) =~= Seq::<Seq<u8>>::empty());
            assert(slot_bytes(it.slots.skip(1)) =~= Seq::<u8>::empty());
            assert(slot_bytes(it.slots) =~= it.slots[0]);
        } else {
            lemma_scan_long(dir, pos, it, 0, more, none, upper);
            if n == 0 {
                assert(long_name(it.parts) =~= none);
            }
        }
        let at = pos + 32 * n;
        let e = it.slots[n];
        assert(it.slots.last() == e);
        assert(e.len() == 32);
        let here = dir.skip(at);
        assert(here == e + more);
        assert(0 <= at <= dir.len());
        assert(here.len() == dir.len() - at);
        assert(here.len() == 32 + more.len());
        assert(dir.subrange(at, at + 32) =~= e) by {
            assert forall|k: int| 0 <= k < 32 implies dir.subrange(at, at + 32)[k] == e[k] by {
                assert(dir[at + k] == here[k]);
            }
        }
        assert(dir.skip(at + 32) =~= more) by {
            assert forall|k: int| 0 <= k < dir.skip(at + 32).len() implies dir.skip(at + 32)[k]
                == more[k] by {
                assert(dir[at + 32 + k] == here[32 + k]);
            }
        }
        assert forall|i: int| 0 <= i < rest.len() implies well_laid(#[trigger] rest[i]) by {
            assert(rest[i] == items[i + 1]);
        }
        lemma_scan_items(dir, at + 32, rest, end, name);
        let next = scan(dir, at + 32, none, upper);
        if !it.deleted {
            lemma_short(e, it.base, it.ext);
            lemma_upper_short(dotted(it.base, it.ext), upper);
            lemma_folded_upper(dotted(it.base, it.ext), name);
            lemma_folded_upper(long_name(it.parts), name);
            lemma_says(e);
        }
        if answers(it, name) {
            assert(r == Some(entry_of(e)));
        } else {
            assert(r == next);
        }
        assert forall|k: int|
            0 <= k < items.len() && answers(#[trigger] items[k], name) && (forall|j: int|
                0 <= j < k ==> !answers(#[trigger] items[j], name)) implies r is Some && says(
            items[k].slots.last(),
            r->0,
        ) by {
            if k > 0 {
                assert(!answers(items[0], name));
                assert(rest[k - 1] == items[k]);
                assert forall|j: int| 0 <= j < k - 1 implies !answers(#[trigger] rest[j], name) by {
                    assert(rest[j] == items[j + 1]);
                }
            }
        }
        if forall|i: int| 0 <= i < items.len() ==> !answers(#[trigger] items[i], name) {
            assert(!answers(items[0], name));
            assert forall|i: int| 0 <= i < rest.len() implies !answers(#[trigger] rest[i], name) by {
                assert(rest[i] == items[i + 1]);
            }
        }
    }
}

// ---------------------------------------------------------------------------
// The way to a file
// ---------------------------------------------------------------------------

/// What is read from a cluster on.
pub open spec fn read_from(img: Seq<u8>, g: Geometry, c: u32, data: Seq<u8>) -> bool {
    chain(img, g, c, chain_limit()) == Some(Ok::<Seq<u8>, Seq<char>>(data))
}

/// The first `n` parts of a path lead through directories: `dirs[i]` is the
/// one in which the `i`-th part stands.
pub open spec fn leads_through(
    img: Seq<u8>,
    g: Geometry,
    parts: Seq<Seq<char>>,
    dirs: Seq<Seq<u8>>,
    n: int,
) -> bool {
    forall|i: int|
        0 <= i < n ==> (entry_named(#[trigger] dirs[i], parts[i]) matches Some(e) && e.is_dir
            && read_from(img, g, e.cluster, dirs[i + 1]))
}

/// The image has a boot partition whose root directory has the directory
/// "overlays", with the contents `first`.
pub open spec fn opens(img: Seq<u8>, g: Geometry, root: Seq<u8>, first: Seq<u8>) -> bool {
    &&& img.len() >= 16 * 1024 * 1024 + 512
    &&& geometry(img.subrange(0x100_0000, 0x100_0200)) == Ok::<
        Geometry,
        Seq<char>,
    >(g)
    &&& read_from(img, g, g.root_cluster, root)
    &&& entry_named(root, "overlays"@) matches Some(e) && e.is_dir && read_from(
        img,
        g,
        e.cluster,
        first,
    )
}

proof fn lemma_walk(
    img: Seq<u8>,
    g: Geometry,
    parts: Seq<Seq<char>>,
    dirs: Seq<Seq<u8>>,
    n: int,
    i: int,
)
    requires
        0 < parts.len() <= usize::MAX,
        forall|i: int, k: int| 0 <= i < parts.len() && 0 <= k < parts[i].len() ==> #[trigger] parts[i][k]
            != '/',
        0 <= i <= n < parts.len(),
        n < dirs.len(),
        leads_through(img, g, parts, dirs, n),
    ensures
        ({
            let path = joined(parts, seq!['/']);
            found_after(img, g, path, Stage::Dir(i as usize), dirs[i]) == found_after(
                img,
                g,
                path,
                Stage::Dir(n as usize),
                dirs[n],
            )
        }),
    decreases n - i,
{
    if i < n {
        let path = joined(parts, seq!['/']);
        lemma_joined_pieces(parts, '/');
        assert(entry_named(dirs[i], parts[i]) is Some);
        lemma_walk(img, g, parts, dirs, n, i + 1);
    }
}

proof fn lemma_entry(
    img: Seq<u8>,
    g: Geometry,
    root: Seq<u8>,
    parts: Seq<Seq<char>>,
    dirs: Seq<Seq<u8>>,
    n: int,
)
    requires
        0 < parts.len() <= usize::MAX,
        forall|i: int, k: int| 0 <= i < parts.len() && 0 <= k < parts[i].len() ==> #[trigger] parts[i][k]
            != '/',
        0 <= n < parts.len(),
        n < dirs.len(),
        opens(img, g, root, dirs[0]),
        leads_through(img, g, parts, dirs, n),
    ensures
        pieces(joined(parts, seq!['/']), '/') == parts,
        dtbo_in(img, joined(parts, seq!['/'])) == found_after(
            img,
            g,
            joined(parts, seq!['/']),
            Stage::Dir(n as usize),
            dirs[n],
        ),
{
    let path = joined(parts, seq!['/']);
    lemma_joined_pieces(parts, '/');
    lemma_walk(img, g, parts, dirs, n, 0);
    assert(found_from(img, g, path, Stage::Root, g.root_cluster) == found_after(
        img,
        g,
        path,
        Stage::Root,
        root,
    ));
}

/// A file below "overlays" is read as its bytes, as many as its entry counts,
/// through as many directories as its path names.
pub proof fn lemma_file_read(
    img: Seq<u8>,
    g: Geometry,
    root: Seq<u8>,
    parts: Seq<Seq<char>>,
    dirs: Seq<Seq<u8>>,
    file: Entry,
    data: Seq<u8>,
)
    requires
        0 < parts.len() <= usize::MAX,
        dirs.len() == parts.len(),
        forall|i: int, k: int| 0 <= i < parts.len() && 0 <= k < parts[i].len() ==> #[trigger] parts[i][k]
            != '/',
        opens(img, g, root, dirs[0]),
        leads_through(img, g, parts, dirs, parts.len() - 1),
        entry_named(dirs.last(), parts.last()) == Some(file),
        read_from(img, g, file.cluster, data),
        file.size <= data.len(),
    ensures
        sound(img, joined(parts, seq!['/'])),
        dtbo_bytes(img, joined(parts, seq!['/'])) == Ok::<Seq<u8>, Seq<char>>(
            data.take(file.size as int),
        ),
{
    let path = joined(parts, seq!['/']);
    let n = parts.len() - 1;
    lemma_entry(img, g, root, parts, dirs, n);
    assert(found_after(img, g, path, Stage::File(file.size), data) == Some(
        Ok::<FileView, Seq<char>>(FileView { data, size: file.size }),
    ));
}

/// Where the way to a file breaks off, the message names the place.
pub proof fn lemma_file_missing(
    img: Seq<u8>,
    g: Geometry,
    root: Seq<u8>,
    parts: Seq<Seq<char>>,
    dirs: Seq<Seq<u8>>,
    n: int,
)
    requires
        0 < parts.len() <= usize::MAX,
        forall|i: int, k: int| 0 <= i < parts.len() && 0 <= k < parts[i].len() ==> #[trigger] parts[i][k]
            != '/',
        0 <= n < parts.len(),
        n < dirs.len(),
        opens(img, g, root, dirs[0]),
        leads_through(img, g, parts, dirs, n),
    ensures
        ({
            let path = joined(parts, seq!['/']);
            let e = entry_named(dirs[n], parts[n]);
            &&& n < parts.len() - 1 && e is None ==> dtbo_bytes(img, path) == Err::<
                Seq<u8>,
                Seq<char>,
            >("overlays/"@ + parts[n] + " not found"@)
            &&& n < parts.len() - 1 && e is Some && !e->0.is_dir ==> dtbo_bytes(img, path) == Err::<
                Seq<u8>,
                Seq<char>,
            >(parts[n] + " is not a directory"@)
            &&& n == parts.len() - 1 && e is None ==> dtbo_bytes(img, path) == Err::<
                Seq<u8>,
                Seq<char>,
            >("overlays/"@ + path + " not found"@)
        }),
{
    lemma_entry(img, g, root, parts, dirs, n);
}

/// An image without a boot partition, or whose boot partition has no
/// directory "overlays", is told as such.
pub proof fn lemma_image_refused(img: Seq<u8>, path: Seq<char>, g: Geometry, root: Seq<u8>)
    ensures
        img.len() <= 16 * 1024 * 1024 ==> dtbo_bytes(img, path) == Err::<Seq<u8>, Seq<char>>(
            "Image too small — no BOOT partition"@,
        ),
        img.len() >= 16 * 1024 * 1024 + 512 && geometry(
            img.subrange(0x100_0000, 0x100_0200),
        ) == Ok::<Geometry, Seq<char>>(g) && read_from(img, g, g.root_cluster, root)
            && entry_named(root, "overlays"@) is None ==> dtbo_bytes(img, path) == Err::<
            Seq<u8>,
            Seq<char>,
        >("overlays/ directory not found in boot partition"@),
        img.len() >= 16 * 1024 * 1024 + 512 && geometry(
            img.subrange(0x100_0000, 0x100_0200),
        ) == Ok::<Geometry, Seq<char>>(g) && read_from(img, g, g.root_cluster, root) && (
        entry_named(root, "overlays"@) matches Some(e) && !e.is_dir) ==> dtbo_bytes(img, path)
            == Err::<Seq<u8>, Seq<char>>("overlays is not a directory"@),
{
}

/// A boot sector that is cut off or refused, and a chain that cannot be read,
/// end the search with their messages.
pub proof fn lemma_read_faults(img: Seq<u8>, path: Seq<char>, g: Geometry, root: Seq<u8>, e: Seq<char>)
    requires
        img.len() > 16 * 1024 * 1024,
    ensures
        img.len() < 16 * 1024 * 1024 + 512 ==> dtbo_bytes(img, path) == Err::<Seq<u8>, Seq<char>>(
            "Read BPB error: failed to fill whole buffer"@,
        ),
        img.len() >= 16 * 1024 * 1024 + 512 && geometry(img.subrange(0x100_0000, 0x100_0200)) == Err::<
            Geometry,
            Seq<char>,
        >(e) ==> dtbo_bytes(img, path) == Err::<Seq<u8>, Seq<char>>(e),
        img.len() >= 16 * 1024 * 1024 + 512 && geometry(img.subrange(0x100_0000, 0x100_0200)) == Ok::<
            Geometry,
            Seq<char>,
        >(g) ==> {
            &&& unread(img, g, g.root_cluster, e) ==> dtbo_bytes(img, path) == Err::<
                Seq<u8>,
                Seq<char>,
            >(e)
            &&& read_from(img, g, g.root_cluster, root) && (entry_named(root, "overlays"@) matches Some(
                d,
            ) && d.is_dir && unread(img, g, d.cluster, e)) ==> dtbo_bytes(img, path) == Err::<
                Seq<u8>,
                Seq<char>,
            >(e)
        },
{
    reveal_strlit("Read BPB error: ");
    reveal_strlit("failed to fill whole buffer");
    reveal_strlit("Read BPB error: failed to fill whole buffer");
    assert("Read BPB error: "@ + "failed to fill whole buffer"@
        =~= "Read BPB error: failed to fill whole buffer"@);
    if img.len() >= 16 * 1024 * 1024 + 512 && geometry(img.subrange(0x100_0000, 0x100_0200)) == Ok::<
        Geometry,
        Seq<char>,
    >(g) && read_from(img, g, g.root_cluster, root) {
        assert(found_from(img, g, path, Stage::Root, g.root_cluster) == found_after(
            img,
            g,
            path,
            Stage::Root,
            root,
        ));
    }
}

/// The chain from a cluster on cannot be read, for the reason `e`.
pub open spec fn unread(img: Seq<u8>, g: Geometry, c: u32, e: Seq<char>) -> bool {
    chain(img, g, c, chain_limit()) == Some(Err::<Seq<u8>, Seq<char>>(e))
}

/// So does a directory or a file on the way.
pub proof fn lemma_way_unread(
    img: Seq<u8>,
    g: Geometry,
    root: Seq<u8>,
    parts: Seq<Seq<char>>,
    dirs: Seq<Seq<u8>>,
    n: int,
    next: Entry,
    e: Seq<char>,
)
    requires
        0 < parts.len() <= usize::MAX,
        forall|i: int, k: int| 0 <= i < parts.len() && 0 <= k < parts[i].len() ==> #[trigger] parts[i][k]
            != '/',
        0 <= n < parts.len(),
        n < dirs.len(),
        opens(img, g, root, dirs[0]),
        leads_through(img, g, parts, dirs, n),
        entry_named(dirs[n], parts[n]) == Some(next),
        n < parts.len() - 1 ==> next.is_dir,
        unread(img, g, next.cluster, e),
    ensures
        dtbo_bytes(img, joined(parts, seq!['/'])) == Err::<Seq<u8>, Seq<char>>(e),
{
    lemma_entry(img, g, root, parts, dirs, n);
}

} // verus!
