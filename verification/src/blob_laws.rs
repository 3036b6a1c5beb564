//! The bytes of a written device tree, and the paths through one.

use crate::blob::{find_path, lookup, lookup_first, seek, value_of, without_nuls, Searched};
use crate::bytes::be32;
use crate::dtbo_builder::{
    be32_list, blob, blob_len, event_bytes, header_words, lemma_blob_blocks, name_offset, names,
    padded, string_list, strings_bytes, struct_bytes, zeros, Event, FDT_END,
};
use crate::text::{lemma_upto, upto};
use crate::tree::{named, Node, Prop};
use vstd::prelude::*;
use vstd::utf8::*;

verus! {

/// The four bytes of `b` from `i` on are the number, the high byte first.
pub open spec fn number_at(b: Seq<u8>, i: int, n: int) -> bool {
    i + 4 <= b.len() && b[i] * 16777216 + b[i + 1] * 65536 + b[i + 2] * 256 + b[i + 3] == n
}

/// A number is four bytes, the high one first.
pub proof fn lemma_number(n: u32)
    ensures
        be32(n).len() == 4,
        number_at(be32(n), 0, n as int),
{
    let b = be32(n);
    assert(b[0] == n / 0x1000000);
    assert(b[1] == n / 0x10000 % 0x100);
    assert(b[2] == n / 0x100 % 0x100);
    assert(b[3] == n % 0x100);
}

/// A list of numbers is their bytes one after the other.
pub proof fn lemma_number_list(v: Seq<u32>, i: int)
    requires
        0 <= i < v.len(),
    ensures
        be32_list(v).len() == 4 * v.len(),
        number_at(be32_list(v), 4 * i, v[i] as int),
    decreases v.len(),
{
    let b = be32_list(v);
    let before = be32_list(v.drop_last());
    lemma_number(v.last());
    if v.len() == 1 {
        assert(v.drop_last() =~= Seq::<u32>::empty());
        assert(before =~= Seq::<u8>::empty());
        assert(b =~= be32(v[0]));
    } else {
        lemma_number_list(v.drop_last(), if i < v.len() - 1 {
            i
        } else {
            0
        });
        if i == v.len() - 1 {
            assert forall|k: int| 0 <= k < 4 implies #[trigger] b[4 * i + k] == be32(v[i])[k] by {}
            assert(b[4 * i] == b[4 * i + 0]);
        } else {
            assert forall|k: int| 0 <= k < 4 implies #[trigger] b[4 * i + k] == before[4 * i + k] by {}
            assert(b[4 * i] == b[4 * i + 0]);
            assert(before[4 * i] == before[4 * i + 0]);
            assert(v.drop_last()[i] == v[i]);
        }
    }
}

/// A list of texts is each of them with a zero behind it.
pub proof fn lemma_string_list(v: Seq<&str>, s: &str)
    ensures
        string_list(v.push(s)) == string_list(v) + encode_utf8(s@) + seq![0u8],
        string_list(Seq::<&str>::empty()) == Seq::<u8>::empty(),
{
    assert(v.push(s).drop_last() =~= v);
    assert(v.push(s).last() == s);
    assert(string_list(v) + encode_utf8(s@).push(0) =~= string_list(v) + encode_utf8(s@) + seq![
        0u8,
    ]);
}

/// Bytes are filled up with zeros to the next multiple of four.
pub proof fn lemma_padded(b: Seq<u8>)
    ensures
        padded(b).len() % 4 == 0,
        b.len() <= padded(b).len() < b.len() + 4,
        padded(b).take(b.len() as int) == b,
        forall|i: int| b.len() <= i < padded(b).len() ==> #[trigger] padded(b)[i] == 0,
{
    assert(padded(b).take(b.len() as int) =~= b);
}

/// What begins a node: the word one, then its name, filled up. What ends it:
/// the word two.
pub proof fn lemma_node_words(tab: Seq<Seq<char>>, name: Seq<char>)
    ensures
        event_bytes(tab, Event::Begin(name)) == seq![0u8, 0, 0, 1] + padded(
            encode_utf8(name) + seq![0u8],
        ),
        event_bytes(tab, Event::End) == seq![0u8, 0, 0, 2],
        event_bytes(tab, Event::Intern(name)) == Seq::<u8>::empty(),
{
    assert(be32(1) =~= seq![0u8, 0, 0, 1]);
    assert(be32(2) =~= seq![0u8, 0, 0, 2]);
    assert(encode_utf8(name).push(0) =~= encode_utf8(name) + seq![0u8]);
}

/// A property: the word three, the length of its value, where its name
/// stands, and the value, filled up.
pub proof fn lemma_property_words(tab: Seq<Seq<char>>, p: Prop)
    requires
        p.value.len() <= 0xffff_ffff,
        name_offset(tab, p.name) <= 0xffff_ffff,
    ensures
        ({
            let b = event_bytes(tab, Event::Write(p));
            &&& b.take(4) == seq![0u8, 0, 0, 3]
            &&& number_at(b, 4, p.value.len() as int)
            &&& number_at(b, 8, name_offset(tab, p.name) as int)
            &&& b.skip(12) == padded(p.value)
        }),
{
    let b = event_bytes(tab, Event::Write(p));
    let n = p.value.len() as usize as u32;
    let o = name_offset(tab, p.name) as usize as u32;
    assert(be32(3) =~= seq![0u8, 0, 0, 3]);
    lemma_number(n);
    lemma_number(o);
    assert(b.take(4) =~= be32(3));
    assert(b.skip(12) =~= padded(p.value));
    assert(b[4] == be32(n)[0] && b[5] == be32(n)[1] && b[6] == be32(n)[2] && b[7] == be32(n)[3]);
    assert(b[8] == be32(o)[0] && b[9] == be32(o)[1] && b[10] == be32(o)[2] && b[11] == be32(o)[3]);
}

/// The header of a blob: the magic number, the sizes and places of its
/// blocks, the versions, and no boot processor but the first. Behind it an
/// empty list of reserved memory, the nodes with the word nine, and the names.
#[verifier::rlimit(40)]
pub proof fn lemma_blob_header(ev: Seq<Event>)
    requires
        blob_len(ev) <= 0xffff_ffff,
    ensures
        ({
            let b = blob(ev);
            let structs = struct_bytes(ev).len() + 4int;
            let strings = strings_bytes(names(ev)).len() as int;
            &&& b.len() == 56 + structs + strings
            &&& b[0] == 0xd0 && b[1] == 0x0d && b[2] == 0xfe && b[3] == 0xed
            &&& number_at(b, 4, b.len() as int)
            &&& number_at(b, 8, 56)
            &&& number_at(b, 12, 56 + structs)
            &&& number_at(b, 16, 40)
            &&& number_at(b, 20, 17)
            &&& number_at(b, 24, 16)
            &&& number_at(b, 28, 0)
            &&& number_at(b, 32, strings)
            &&& number_at(b, 36, structs)
            &&& forall|i: int| 40 <= i < 56 ==> #[trigger] b[i] == 0
            &&& b.subrange(56, 56 + structs) == struct_bytes(ev) + seq![0u8, 0, 0, 9]
            &&& b.skip(56 + structs) == strings_bytes(names(ev))
        }),
{
    let b = blob(ev);
    let h = be32_list(header_words(ev));
    let structs = struct_bytes(ev).len() + 4int;
    let strings = strings_bytes(names(ev)).len() as int;
    lemma_blob_blocks(ev);
    lemma_header_number(ev, 1);
    lemma_header_number(ev, 2);
    lemma_header_number(ev, 3);
    lemma_header_number(ev, 4);
    lemma_header_number(ev, 5);
    lemma_header_number(ev, 6);
    lemma_header_number(ev, 7);
    lemma_header_number(ev, 8);
    lemma_header_number(ev, 9);
    lemma_header_magic(ev);
    assert(be32(9) =~= seq![0u8, 0, 0, 9]);
    assert(b.subrange(56, 56 + structs) =~= struct_bytes(ev) + be32(FDT_END));
    assert(b.skip(56 + structs) =~= strings_bytes(names(ev)));
}

proof fn lemma_header_number(ev: Seq<Event>, i: int)
    requires
        0 <= i < 10,
    ensures
        number_at(blob(ev), 4 * i, header_words(ev)[i] as int),
        be32_list(header_words(ev)).len() == 40,
{
    let h = be32_list(header_words(ev));
    let b = blob(ev);
    lemma_number_list(header_words(ev), i);
    assert forall|k: int| 0 <= k < 40 implies #[trigger] b[k] == h[k] by {}
}

proof fn lemma_header_magic(ev: Seq<Event>)
    ensures
        blob(ev)[0] == 0xd0,
        blob(ev)[1] == 0x0d,
        blob(ev)[2] == 0xfe,
        blob(ev)[3] == 0xed,
{
    let b = blob(ev);
    lemma_header_number(ev, 0);
    assert(number_at(b, 0, 0xd00d_feed));
    let (p, q, r, s) = (b[0], b[1], b[2], b[3]);
    assert(p * 16777216 + q * 65536 + r * 256 + s == 0xd00d_feed);
}

/// The nodes are the words of each event in turn, with the names known up to
/// it.
pub proof fn lemma_words_in_turn(ev: Seq<Event>, e: Event)
    ensures
        struct_bytes(ev.push(e)) == struct_bytes(ev) + event_bytes(names(ev.push(e)), e),
        struct_bytes(Seq::empty()) == Seq::<u8>::empty(),
{
    assert(ev.push(e).drop_last() =~= ev);
    assert(ev.push(e).last() == e);
}

// ---------------------------------------------------------------------------
// Paths
// ---------------------------------------------------------------------------

/// A part of a path without an address names the nodes that have that name,
/// at any address or at none; one with an address names only itself.
pub proof fn lemma_named(name: Seq<char>, part: Seq<char>)
    ensures
        part.contains('@') ==> (named(name, part) <==> name == part),
        !part.contains('@') ==> (named(name, part) <==> name == part || exists|a: Seq<char>|
            name == #[trigger] (part + seq!['@'] + a)),
{
    let n = part.len() as int;
    if !part.contains('@') {
        assert forall|i: int| 0 <= i < n implies part[i] != '@' by {
            assert(part.contains(part[i]));
        }
        let k = upto(name, '@');
        lemma_upto(name, '@');
        if named(name, part) {
            if k < name.len() {
                assert(name =~= part + seq!['@'] + name.skip(k + 1));
            } else {
                assert(name =~= part);
            }
        }
        if name == part {
            assert(k == n) by {
                if k < n {
                    assert(name[k] == '@');
                }
            }
            assert(name.take(n) =~= part);
        }
        if exists|a: Seq<char>| name == #[trigger] (part + seq!['@'] + a) {
            let a = choose|a: Seq<char>| name == #[trigger] (part + seq!['@'] + a);
            assert(name[n] == '@');
            assert(k == n) by {
                if k < n {
                    assert(name[k] == part[k]);
                }
                if k > n {
                    assert(name[n] != '@');
                }
            }
            assert(name.take(n) =~= part);
        }
    }
}

proof fn lemma_part(part: Seq<char>, rest: Seq<char>)
    requires
        !part.contains('/'),
    ensures
        upto(part + seq!['/'] + rest, '/') == part.len(),
        upto(part, '/') == part.len(),
        (part + seq!['/'] + rest).take(part.len() as int) == part,
        (part + seq!['/'] + rest).skip(part.len() + 1int) == rest,
        part.take(part.len() as int) == part,
{
    let path = part + seq!['/'] + rest;
    let n = part.len() as int;
    assert forall|i: int| 0 <= i < n implies part[i] != '/' by {
        assert(part.contains(part[i]));
    }
    lemma_upto(path, '/');
    lemma_upto(part, '/');
    let k = upto(path, '/');
    assert(path[n] == '/');
    if k < n {
        assert(path[k] == part[k]);
    }
    if k > n {
        assert(path[n] != '/');
    }
    let m = upto(part, '/');
    if m < n {
        assert(part[m] == '/');
    }
    assert(path.take(n) =~= part);
    assert(path.skip(n + 1) =~= rest);
    assert(part.take(n) =~= part);
}

/// A path of one part, with or without a slash behind it, leads to the node
/// itself if it names it; one of more parts leads on to the children.
pub proof fn lemma_path_step(t: Node, part: Seq<char>, rest: Seq<char>)
    requires
        !part.contains('/'),
    ensures
        lookup(t, part) == (if named(t.name, part) {
            Some(t)
        } else {
            None
        }),
        lookup(t, part + seq!['/']) == lookup(t, part),
        rest.len() > 0 ==> lookup(t, part + seq!['/'] + rest) == (if named(t.name, part) {
            lookup_first(t.children, rest)
        } else {
            None
        }),
{
    lemma_part(part, rest);
    lemma_part(part, Seq::empty());
    assert(part + seq!['/'] + Seq::<char>::empty() =~= part + seq!['/']);
}

/// Among children the first one counts in which the path leads somewhere.
pub proof fn lemma_first_child(ts: Seq<Node>, path: Seq<char>)
    ensures
        match lookup_first(ts, path) {
            Some(n) => exists|k: int|
                0 <= k < ts.len() && lookup(#[trigger] ts[k], path) == Some(n) && forall|j: int|
                    0 <= j < k ==> lookup(#[trigger] ts[j], path) is None,
            None => forall|j: int| 0 <= j < ts.len() ==> lookup(#[trigger] ts[j], path) is None,
        },
    decreases ts.len(),
{
    if ts.len() > 0 {
        let rest = ts.subrange(1, ts.len() as int);
        lemma_first_child(rest, path);
        match lookup(ts[0], path) {
            Some(n) => {
                assert(lookup(ts[0], path) == Some(n));
            },
            None => {
                match lookup_first(rest, path) {
                    Some(n) => {
                        let k = choose|k: int|
                            0 <= k < rest.len() && lookup(#[trigger] rest[k], path) == Some(n)
                                && forall|j: int|
                                0 <= j < k ==> lookup(#[trigger] rest[j], path) is None;
                        assert(ts[k + 1] == rest[k]);
                        assert forall|j: int| 0 <= j < k + 1 implies lookup(#[trigger] ts[j], path)
                            is None by {
                            if j > 0 {
                                assert(ts[j] == rest[j - 1]);
                            }
                        }
                    },
                    None => {
                        assert forall|j: int| 0 <= j < ts.len() implies lookup(
                            #[trigger] ts[j],
                            path,
                        ) is None by {
                            if j > 0 {
                                assert(ts[j] == rest[j - 1]);
                            }
                        }
                    },
                }
            },
        }
    }
}

/// From the root, where all children can be reached, a path leads where it
/// leads from any node.
pub proof fn lemma_seek_all(s: Searched, path: Seq<char>)
    requires
        s.reach == s.root.children.len(),
    ensures
        seek(s, path) == lookup(s.root, path),
{
    assert(s.root.children.take(s.reach as int) =~= s.root.children);
}

proof fn lemma_nuls_gone(s: Seq<char>, k: nat)
    requires
        s.len() > 0 ==> s.last() != '\0',
    ensures
        without_nuls(s + Seq::new(k, |i: int| '\0')) == s,
    decreases k,
{
    let t = s + Seq::new(k, |i: int| '\0');
    if k == 0 {
        assert(t =~= s);
    } else {
        assert(t.last() == '\0');
        assert(t.drop_last() =~= s + Seq::new((k - 1) as nat, |i: int| '\0'));
        lemma_nuls_gone(s, (k - 1) as nat);
    }
}

/// A path that leads somewhere is no alias; another one is looked for as what
/// the node of the aliases says of it, without the zeros at its end.
pub proof fn lemma_alias(s: Searched, path: Seq<char>, a: Node, to: Seq<char>, zero_count: nat, k: nat)
    requires
        seek(s, "/aliases"@) == Some(a),
        value_of(a.props, path) == Some(
            encode_utf8(to + Seq::new(zero_count, |i: int| '\0')),
        ),
        to.len() > 0 ==> to.last() != '\0',
    ensures
        seek(s, path) is Some ==> find_path(s, path, k) == seek(s, path),
        seek(s, path) is None ==> find_path(s, path, k + 1) == find_path(s, to, k),
{
    let t = to + Seq::new(zero_count, |i: int| '\0');
    encode_utf8_valid_utf8(t);
    encode_utf8_decode_utf8(t);
    lemma_nuls_gone(to, zero_count);
}

} // verus!
