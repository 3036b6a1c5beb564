//! Reading device tree blobs.
//!
//! Blobs are read with the `fdt` crate, whose nodes are copied into
//! [`DtNode`]s. The crate does not return on a blob whose structure is
//! broken, so its functions are only called on blobs that hold a tree or no
//! node at all, which [`is_readable`] tests.

use crate::bytes::{copy_range, read_be32};
use crate::text::{chars_of, find_char, lemma_upto, same, string_of, upto, utf8_text};
use crate::tree::{
    aligned, body_of, broken_text_at, front_end, has_tree, header_fault, lead, lemma_node_as_root,
    lemma_node_goes_on, lemma_node_unique, lemma_prop_unique, lemma_props_unique,
    lemma_root_props_unique, lemma_root_unique, lemma_skipped, lemma_text_unique, lemma_tree_unique,
    named, no_nul, node_at, nodes_at, prop_at, prop_views, props_at, readable, root_at, root_kids,
    root_nodes_at, root_props_at, root_start, rootless, run_of_root_nodes, run_of_root_props,
    skip_nops, strings_block, struct_block, struct_inside, text_at, token, tree_in, whole_in,
    BlobFault, DtNode, DtProperty, Node, Prop, FDT_BEGIN_NODE, FDT_END_NODE, FDT_MAGIC, FDT_NOP,
    FDT_PROP,
};
use vstd::prelude::*;
use vstd::slice::slice_subrange;
use vstd::utf8::*;

verus! {

// ---------------------------------------------------------------------------
// Is there a tree in the blob?
// ---------------------------------------------------------------------------

/// What is wrong with the header of a blob, if anything.
pub fn check_header(data: &[u8]) -> (r: Option<BlobFault>)
    ensures
        r == header_fault(data@),
{
    if data.len() < 40 {
        Some(BlobFault::BufferTooSmall)
    } else if read_be32(data, 0) != FDT_MAGIC {
        Some(BlobFault::BadMagic)
    } else if (data.len() as u64) < read_be32(data, 4) as u64 {
        Some(BlobFault::BufferTooSmall)
    } else {
        None
    }
}

fn token_at(st: &[u8], pos: u64) -> (r: Option<u32>)
    requires
        st@.len() <= u32::MAX,
        pos <= 0x4_0000_0000,
    ensures
        r == token(st@, pos as int),
{
    if pos + 4 <= st.len() as u64 {
        Some(read_be32(st, pos as usize))
    } else {
        None
    }
}

/// Where the text at `pos` ends, if one stands there.
fn text_end(b: &[u8], pos: u64) -> (r: Option<u64>)
    requires
        b@.len() <= u32::MAX,
    ensures
        match r {
            Some(e) => {
                let name = decode_utf8(b@.subrange(pos as int, e as int));
                &&& pos <= e < b@.len()
                &&& text_at(b@, pos as int, name)
                &&& encode_utf8(name).len() == e - pos
            },
            None => forall|name: Seq<char>| !text_at(b@, pos as int, name),
        },
{
    if pos >= b.len() as u64 {
        return None;
    }
    let mut e: u64 = pos;
    while e < b.len() as u64 && b[e as usize] != 0
        invariant
            pos <= e <= b@.len() <= u32::MAX,
            forall|j: int| pos <= j < e ==> b@[j] != 0,
        decreases b@.len() - e,
    {
        e += 1;
    }
    let ghost u = b@.subrange(pos as int, e as int);
    assert forall|name: Seq<char>| text_at(b@, pos as int, name) implies e < b@.len()
        && encode_utf8(name) == u by {
        let n = encode_utf8(name);
        if pos + n.len() < e {
            assert(b@[pos + n.len()] == 0);
        }
        if e < b@.len() && e < pos + n.len() {
            assert(n[e - pos] == b@.subrange(pos as int, pos + n.len())[e - pos]);
        }
    }
    if e == b.len() as u64 {
        return None;
    }
    let part = copy_range(b, pos as usize, e as usize);
    match utf8_text(part.as_slice()) {
        Some(_) => {
            proof {
                decode_utf8_encode_utf8(u);
                assert forall|i: int| 0 <= i < u.len() implies #[trigger] u[i] != 0 by {
                    assert(u[i] == b@[pos + i]);
                }
                let name = decode_utf8(u);
                assert(text_at(b@, pos as int, name));
            }
            Some(e)
        },
        None => {
            assert forall|name: Seq<char>| !text_at(b@, pos as int, name) by {
                if text_at(b@, pos as int, name) {
                    encode_utf8_valid_utf8(name);
                }
            }
            None
        },
    }
}

/// A run of properties that no property follows.
spec fn run_of_props(st: Seq<u8>, strs: Seq<u8>, pos: int, ps: Seq<Prop>) -> bool {
    props_at(st, strs, pos, ps) is Some && token(st, props_at(st, strs, pos, ps)->0) != Some(
        FDT_PROP,
    )
}

proof fn lemma_props_push(st: Seq<u8>, strs: Seq<u8>, pos: int, ps: Seq<Prop>, p: Prop)
    requires
        props_at(st, strs, pos, ps) is Some,
        prop_at(st, strs, props_at(st, strs, pos, ps)->0, p) is Some,
    ensures
        props_at(st, strs, pos, ps.push(p)) == prop_at(
            st,
            strs,
            props_at(st, strs, pos, ps)->0,
            p,
        ),
    decreases ps.len(),
{
    let all = ps.push(p);
    if ps.len() == 0 {
        assert(all.skip(1) =~= Seq::<Prop>::empty());
        let e = prop_at(st, strs, pos, p)->0;
        assert(props_at(st, strs, e, all.skip(1)) == Some(e));
    } else {
        let e = prop_at(st, strs, pos, ps[0])->0;
        lemma_props_push(st, strs, e, ps.skip(1), p);
        assert(all.skip(1) =~= ps.skip(1).push(p));
    }
}

/// Where the property at `pos` ends, if one stands there.
fn check_prop(st: &[u8], strs: &[u8], pos: u64) -> (r: Option<(u64, Ghost<Prop>)>)
    requires
        st@.len() <= u32::MAX,
        strs@.len() <= u32::MAX,
        pos <= st@.len() + 3,
    ensures
        match r {
            Some((e, p)) => prop_at(st@, strs@, pos as int, p@) == Some(e as int) && pos < e
                <= st@.len() + 3,
            None => forall|p: Prop| prop_at(st@, strs@, pos as int, p) is None,
        },
{
    match token_at(st, pos) {
        Some(t) => if t != FDT_PROP {
            return None;
        },
        None => {
            return None;
        },
    }
    let len: u32 = match token_at(st, pos + 4) {
        Some(n) => n,
        None => {
            return None;
        },
    };
    let off: u32 = match token_at(st, pos + 8) {
        Some(n) => n,
        None => {
            return None;
        },
    };
    if pos + 12 + len as u64 > st.len() as u64 {
        return None;
    }
    match text_end(strs, off as u64) {
        Some(end) => {
            let ghost p = Prop {
                name: decode_utf8(strs@.subrange(off as int, end as int)),
                value: st@.subrange(pos + 12, pos + 12 + len),
            };
            let e: u64 = pos + 12 + (len as u64 + 3) / 4 * 4;
            assert(prop_at(st@, strs@, pos as int, p) == Some(e as int));
            Some((e, Ghost(p)))
        },
        None => None,
    }
}

/// Where the properties at `pos` end, if they are whole.
fn check_props(st: &[u8], strs: &[u8], start: u64) -> (r: Option<(u64, Ghost<Seq<Prop>>)>)
    requires
        st@.len() <= u32::MAX,
        strs@.len() <= u32::MAX,
        start <= st@.len() + 3,
    ensures
        match r {
            Some((e, ps)) => {
                &&& props_at(st@, strs@, start as int, ps@) == Some(e as int)
                &&& token(st@, e as int) != Some(FDT_PROP)
                &&& start <= e <= st@.len() + 3
            },
            None => forall|ps: Seq<Prop>| !run_of_props(st@, strs@, start as int, ps),
        },
{
    let mut pos: u64 = start;
    let ghost mut acc: Seq<Prop> = Seq::empty();
    assert forall|qs: Seq<Prop>| #[trigger]
        run_of_props(st@, strs@, start as int, qs) implies run_of_props(
        st@,
        strs@,
        pos as int,
        qs.skip(0),
    ) by {
        assert(qs.skip(0) =~= qs);
    }
    loop
        invariant
            st@.len() <= u32::MAX,
            strs@.len() <= u32::MAX,
            start <= pos <= st@.len() + 3,
            props_at(st@, strs@, start as int, acc) == Some(pos as int),
            forall|qs: Seq<Prop>| #[trigger]
                run_of_props(st@, strs@, start as int, qs) ==> qs.len() >= acc.len()
                    && run_of_props(st@, strs@, pos as int, qs.skip(acc.len() as int)),
        decreases st@.len() + 3 - pos,
    {
        let more = match token_at(st, pos) {
            Some(t) => t == FDT_PROP,
            None => false,
        };
        if !more {
            return Some((pos, Ghost(acc)));
        }
        match check_prop(st, strs, pos) {
            Some((e, p)) => {
                proof {
                    let n = acc.len() as int;
                    assert forall|qs: Seq<Prop>| #[trigger]
                        run_of_props(st@, strs@, start as int, qs) implies qs.len() >= n + 1
                        && run_of_props(st@, strs@, e as int, qs.skip(n + 1)) by {
                        let rest = qs.skip(n);
                        assert(run_of_props(st@, strs@, pos as int, rest));
                        assert(rest.len() > 0);
                        lemma_prop_unique(st@, strs@, pos as int, rest[0], p@);
                        assert(rest.skip(1) =~= qs.skip(n + 1));
                    }
                    lemma_props_push(st@, strs@, start as int, acc, p@);
                    acc = acc.push(p@);
                }
                pos = e;
            },
            None => {
                assert forall|qs: Seq<Prop>| !run_of_props(st@, strs@, start as int, qs) by {
                    if run_of_props(st@, strs@, start as int, qs) {
                        let rest = qs.skip(acc.len() as int);
                        assert(run_of_props(st@, strs@, pos as int, rest));
                        assert(rest.len() > 0);
                        assert(prop_at(st@, strs@, pos as int, rest[0]) is Some);
                    }
                }
                return None;
            },
        }
    }
}

/// A run of nodes that no node follows.
spec fn run_of_nodes(st: Seq<u8>, strs: Seq<u8>, pos: int, ts: Seq<Node>) -> bool {
    nodes_at(st, strs, pos, ts) is Some && token(st, nodes_at(st, strs, pos, ts)->0) != Some(
        FDT_BEGIN_NODE,
    )
}

proof fn lemma_nodes_push(st: Seq<u8>, strs: Seq<u8>, pos: int, ts: Seq<Node>, t: Node)
    requires
        nodes_at(st, strs, pos, ts) is Some,
        node_at(st, strs, nodes_at(st, strs, pos, ts)->0, t) is Some,
    ensures
        nodes_at(st, strs, pos, ts.push(t)) == node_at(
            st,
            strs,
            nodes_at(st, strs, pos, ts)->0,
            t,
        ),
    decreases ts.len(),
{
    let all = ts.push(t);
    if ts.len() == 0 {
        assert(all.subrange(1, all.len() as int) =~= Seq::<Node>::empty());
        let e = node_at(st, strs, pos, t)->0;
        assert(nodes_at(st, strs, e, all.subrange(1, all.len() as int)) == Some(e));
    } else {
        let e = node_at(st, strs, pos, ts[0])->0;
        let rest = ts.subrange(1, ts.len() as int);
        lemma_nodes_push(st, strs, e, rest, t);
        assert(all.subrange(1, all.len() as int) =~= rest.push(t));
    }
}

/// The position after the filler tokens at `pos`.
fn after_nops(st: &[u8], start: u64) -> (pos: u64)
    requires
        st@.len() <= u32::MAX,
        start <= st@.len() + 3,
    ensures
        pos == skip_nops(st@, start as int),
        start <= pos <= st@.len() + 3,
{
    let mut pos: u64 = start;
    loop
        invariant
            st@.len() <= u32::MAX,
            start <= pos <= st@.len() + 3,
            skip_nops(st@, start as int) == skip_nops(st@, pos as int),
        decreases st@.len() + 3 - pos,
    {
        let nop = match token_at(st, pos) {
            Some(t) => t == FDT_NOP,
            None => false,
        };
        if !nop {
            return pos;
        }
        pos += 4;
    }
}

/// Where the node at `pos` ends, if one stands there.
fn check_node(st: &[u8], strs: &[u8], pos: u64) -> (r: Option<(u64, Ghost<Node>)>)
    requires
        st@.len() <= u32::MAX,
        strs@.len() <= u32::MAX,
        pos <= st@.len() + 3,
    ensures
        match r {
            Some((e, t)) => node_at(st@, strs@, pos as int, t@) == Some(e as int) && pos < e
                <= st@.len(),
            None => forall|t: Node| node_at(st@, strs@, pos as int, t) is None,
        },
    decreases st@.len() + 3 - pos,
{
    match token_at(st, pos) {
        Some(t) => if t != FDT_BEGIN_NODE {
            return None;
        },
        None => {
            return None;
        },
    }
    let end: u64 = match text_end(st, pos + 4) {
        Some(end) => end,
        None => {
            return None;
        },
    };
    let ghost name = decode_utf8(st@.subrange(pos + 4, end as int));
    let body: u64 = pos + 4 + (end - (pos + 4) + 4) / 4 * 4;
    assert(body == pos + 4 + aligned(encode_utf8(name).len() as int + 1));
    assert forall|t: Node| #[trigger] node_at(st@, strs@, pos as int, t) is Some implies t.name
        == name && run_of_props(st@, strs@, body as int, t.props) by {
        lemma_text_unique(st@, pos + 4, t.name, name);
        let p = props_at(st@, strs@, body as int, t.props)->0;
        let c = nodes_at(st@, strs@, p, t.children)->0;
        if t.children.len() > 0 {
            assert(node_at(st@, strs@, p, t.children[0]) is Some);
        }
        assert(token(st@, skip_nops(st@, c)) == Some(FDT_END_NODE));
    }
    let (kids, Ghost(props)) = match check_props(st, strs, body) {
        Some(x) => x,
        None => {
            return None;
        },
    };
    assert forall|t: Node| #[trigger] node_at(st@, strs@, pos as int, t) is Some implies t.name
        == name && t.props == props && run_of_nodes(st@, strs@, kids as int, t.children) by {
        lemma_props_unique(st@, strs@, body as int, t.props, props);
        let c = nodes_at(st@, strs@, kids as int, t.children)->0;
        assert(token(st@, skip_nops(st@, c)) == Some(FDT_END_NODE));
    }
    let mut at: u64 = kids;
    let ghost mut acc: Seq<Node> = Seq::empty();
    assert forall|us: Seq<Node>| #[trigger]
        run_of_nodes(st@, strs@, kids as int, us) implies run_of_nodes(
        st@,
        strs@,
        at as int,
        us.skip(0),
    ) by {
        assert(us.skip(0) =~= us);
    }
    loop
        invariant_except_break
            st@.len() <= u32::MAX,
            strs@.len() <= u32::MAX,
            pos < kids <= at <= st@.len() + 3,
            nodes_at(st@, strs@, kids as int, acc) == Some(at as int),
            forall|us: Seq<Node>| #[trigger]
                run_of_nodes(st@, strs@, kids as int, us) ==> us.len() >= acc.len()
                    && run_of_nodes(st@, strs@, at as int, us.skip(acc.len() as int)),
            forall|t: Node| #[trigger]
                node_at(st@, strs@, pos as int, t) is Some ==> t.name == name && t.props == props
                    && run_of_nodes(st@, strs@, kids as int, t.children),
        ensures
            pos < kids <= at <= st@.len() + 3,
            nodes_at(st@, strs@, kids as int, acc) == Some(at as int),
            token(st@, at as int) != Some(FDT_BEGIN_NODE),
        decreases st@.len() + 3 - at,
    {
        let more = match token_at(st, at) {
            Some(t) => t == FDT_BEGIN_NODE,
            None => false,
        };
        if !more {
            break;
        }
        match check_node(st, strs, at) {
            Some((e, t)) => {
                proof {
                    let n = acc.len() as int;
                    assert forall|us: Seq<Node>| #[trigger]
                        run_of_nodes(st@, strs@, kids as int, us) implies us.len() >= n + 1
                        && run_of_nodes(st@, strs@, e as int, us.skip(n + 1)) by {
                        let rest = us.skip(n);
                        assert(run_of_nodes(st@, strs@, at as int, rest));
                        assert(rest.len() > 0);
                        lemma_node_unique(st@, strs@, at as int, rest[0], t@);
                        assert(rest.subrange(1, rest.len() as int) =~= us.skip(n + 1));
                    }
                    lemma_nodes_push(st@, strs@, kids as int, acc, t@);
                    acc = acc.push(t@);
                }
                at = e;
            },
            None => {
                assert forall|t: Node| node_at(st@, strs@, pos as int, t) is None by {
                    if node_at(st@, strs@, pos as int, t) is Some {
                        let rest = t.children.skip(acc.len() as int);
                        assert(run_of_nodes(st@, strs@, at as int, rest));
                        assert(rest.len() > 0);
                        assert(node_at(st@, strs@, at as int, rest[0]) is Some);
                    }
                }
                return None;
            },
        }
    }
    let last = after_nops(st, at);
    let ghost t = Node { name, props, children: acc };
    assert forall|u: Node| node_at(st@, strs@, pos as int, u) is Some implies token(
        st@,
        last as int,
    ) == Some(FDT_END_NODE) by {
        crate::tree::lemma_nodes_unique(st@, strs@, kids as int, u.children, acc);
    }
    let done = match token_at(st, last) {
        Some(k) => k == FDT_END_NODE,
        None => false,
    };
    if done {
        assert(node_at(st@, strs@, pos as int, t) == Some(last + 4));
        Some((last + 4, Ghost(t)))
    } else {
        None
    }
}

// ---------------------------------------------------------------------------
// The root node
// ---------------------------------------------------------------------------

/// Whether bytes that are no text, ended by a zero byte, stand at `pos`.
fn text_broken(b: &[u8], pos: u64) -> (r: bool)
    requires
        b@.len() <= u32::MAX,
    ensures
        r == broken_text_at(b@, pos as int),
{
    if pos >= b.len() as u64 {
        return false;
    }
    let mut e: u64 = pos;
    while e < b.len() as u64 && b[e as usize] != 0
        invariant
            pos <= e <= b@.len() <= u32::MAX,
            forall|j: int| pos <= j < e ==> b@[j] != 0,
        decreases b@.len() - e,
    {
        e += 1;
    }
    assert forall|x: int|
        0 <= pos <= x < b@.len() && #[trigger] b@[x] == 0 && no_nul(
            b@.subrange(pos as int, x),
        ) implies x == e by {
        if e < x {
            assert(b@.subrange(pos as int, x)[e - pos] == b@[e as int]);
        }
    }
    if e == b.len() as u64 {
        return false;
    }
    let part = copy_range(b, pos as usize, e as usize);
    let r = utf8_text(part.as_slice()).is_none();
    assert(no_nul(b@.subrange(pos as int, e as int)));
    assert(b@[e as int] == 0);
    r
}

proof fn lemma_root_props_push(st: Seq<u8>, strs: Seq<u8>, pos: int, ps: Seq<Prop>, p: Prop)
    requires
        root_props_at(st, strs, pos, ps) is Some,
        prop_at(st, strs, skip_nops(st, root_props_at(st, strs, pos, ps)->0), p) is Some,
    ensures
        root_props_at(st, strs, pos, ps.push(p)) == prop_at(
            st,
            strs,
            skip_nops(st, root_props_at(st, strs, pos, ps)->0),
            p,
        ),
    decreases ps.len(),
{
    let all = ps.push(p);
    if ps.len() == 0 {
        assert(all.skip(1) =~= Seq::<Prop>::empty());
        let e = prop_at(st, strs, skip_nops(st, pos), p)->0;
        assert(root_props_at(st, strs, e, all.skip(1)) == Some(e));
    } else {
        let e = prop_at(st, strs, skip_nops(st, pos), ps[0])->0;
        lemma_root_props_push(st, strs, e, ps.skip(1), p);
        assert(all.skip(1) =~= ps.skip(1).push(p));
    }
}

/// The properties of the root node at `start`, if they are whole.
fn check_root_props(st: &[u8], strs: &[u8], start: u64) -> (r: Option<Ghost<Seq<Prop>>>)
    requires
        st@.len() <= u32::MAX,
        strs@.len() <= u32::MAX,
        start <= st@.len() + 3,
    ensures
        match r {
            Some(ps) => run_of_root_props(st@, strs@, start as int, ps@),
            None => forall|ps: Seq<Prop>| !run_of_root_props(st@, strs@, start as int, ps),
        },
{
    let mut pos: u64 = start;
    let ghost mut acc: Seq<Prop> = Seq::empty();
    assert forall|qs: Seq<Prop>| #[trigger]
        run_of_root_props(st@, strs@, start as int, qs) implies run_of_root_props(
        st@,
        strs@,
        pos as int,
        qs.skip(0),
    ) by {
        assert(qs.skip(0) =~= qs);
    }
    loop
        invariant
            st@.len() <= u32::MAX,
            strs@.len() <= u32::MAX,
            start <= pos <= st@.len() + 3,
            root_props_at(st@, strs@, start as int, acc) == Some(pos as int),
            forall|qs: Seq<Prop>| #[trigger]
                run_of_root_props(st@, strs@, start as int, qs) ==> qs.len() >= acc.len()
                    && run_of_root_props(st@, strs@, pos as int, qs.skip(acc.len() as int)),
        decreases st@.len() + 3 - pos,
    {
        let at = after_nops(st, pos);
        let more = match token_at(st, at) {
            Some(t) => t == FDT_PROP,
            None => false,
        };
        if !more {
            return Some(Ghost(acc));
        }
        match check_prop(st, strs, at) {
            Some((e, p)) => {
                proof {
                    let n = acc.len() as int;
                    assert forall|qs: Seq<Prop>| #[trigger]
                        run_of_root_props(st@, strs@, start as int, qs) implies qs.len() >= n + 1
                        && run_of_root_props(st@, strs@, e as int, qs.skip(n + 1)) by {
                        let rest = qs.skip(n);
                        assert(run_of_root_props(st@, strs@, pos as int, rest));
                        assert(rest.len() > 0);
                        lemma_prop_unique(st@, strs@, at as int, rest[0], p@);
                        assert(rest.skip(1) =~= qs.skip(n + 1));
                    }
                    lemma_root_props_push(st@, strs@, start as int, acc, p@);
                    acc = acc.push(p@);
                }
                pos = e;
            },
            None => {
                assert forall|qs: Seq<Prop>| !run_of_root_props(st@, strs@, start as int, qs) by {
                    if run_of_root_props(st@, strs@, start as int, qs) {
                        let rest = qs.skip(acc.len() as int);
                        assert(run_of_root_props(st@, strs@, pos as int, rest));
                        assert(rest.len() > 0);
                        assert(prop_at(st@, strs@, at as int, rest[0]) is Some);
                    }
                }
                return None;
            },
        }
    }
}

/// The properties of a root node up to the first filler between them are a
/// run of properties.
proof fn lemma_front(st: Seq<u8>, strs: Seq<u8>, pos: int, ps: Seq<Prop>) -> (front: Seq<Prop>)
    requires
        run_of_root_props(st, strs, pos, ps),
    ensures
        run_of_props(st, strs, pos, front),
        props_at(st, strs, pos, front) == Some(front_end(st, strs, pos, ps)),
    decreases ps.len(),
{
    if ps.len() == 0 {
        Seq::empty()
    } else {
        match prop_at(st, strs, pos, ps[0]) {
            Some(e) => {
                assert(skip_nops(st, pos) == pos);
                let rest = lemma_front(st, strs, e, ps.skip(1));
                let front = seq![ps[0]] + rest;
                assert(front.skip(1) =~= rest);
                front
            },
            None => {
                assert(prop_at(st, strs, skip_nops(st, pos), ps[0]) is Some);
                assert(skip_nops(st, pos) != pos);
                Seq::empty()
            },
        }
    }
}

proof fn lemma_root_nodes_push(st: Seq<u8>, strs: Seq<u8>, pos: int, ts: Seq<Node>, t: Node)
    requires
        root_nodes_at(st, strs, pos, ts) is Some,
        node_at(st, strs, skip_nops(st, root_nodes_at(st, strs, pos, ts)->0), t) is Some,
    ensures
        root_nodes_at(st, strs, pos, ts.push(t)) == node_at(
            st,
            strs,
            skip_nops(st, root_nodes_at(st, strs, pos, ts)->0),
            t,
        ),
    decreases ts.len(),
{
    let all = ts.push(t);
    if ts.len() == 0 {
        assert(all.skip(1) =~= Seq::<Node>::empty());
        let e = node_at(st, strs, skip_nops(st, pos), t)->0;
        assert(root_nodes_at(st, strs, e, all.skip(1)) == Some(e));
    } else {
        let e = node_at(st, strs, skip_nops(st, pos), ts[0])->0;
        lemma_root_nodes_push(st, strs, e, ts.skip(1), t);
        assert(all.skip(1) =~= ts.skip(1).push(t));
    }
}

/// The child nodes of the root node at `start`, if they are whole.
fn check_root_nodes(st: &[u8], strs: &[u8], start: u64) -> (r: Option<Ghost<Seq<Node>>>)
    requires
        st@.len() <= u32::MAX,
        strs@.len() <= u32::MAX,
        start <= st@.len() + 3,
    ensures
        match r {
            Some(ts) => run_of_root_nodes(st@, strs@, start as int, ts@),
            None => forall|ts: Seq<Node>| !run_of_root_nodes(st@, strs@, start as int, ts),
        },
{
    let mut pos: u64 = start;
    let ghost mut acc: Seq<Node> = Seq::empty();
    assert forall|us: Seq<Node>| #[trigger]
        run_of_root_nodes(st@, strs@, start as int, us) implies run_of_root_nodes(
        st@,
        strs@,
        pos as int,
        us.skip(0),
    ) by {
        assert(us.skip(0) =~= us);
    }
    loop
        invariant
            st@.len() <= u32::MAX,
            strs@.len() <= u32::MAX,
            start <= pos <= st@.len() + 3,
            root_nodes_at(st@, strs@, start as int, acc) == Some(pos as int),
            forall|us: Seq<Node>| #[trigger]
                run_of_root_nodes(st@, strs@, start as int, us) ==> us.len() >= acc.len()
                    && run_of_root_nodes(st@, strs@, pos as int, us.skip(acc.len() as int)),
        decreases st@.len() + 3 - pos,
    {
        let at = after_nops(st, pos);
        let more = match token_at(st, at) {
            Some(t) => t == FDT_BEGIN_NODE && !text_broken(st, at + 4),
            None => false,
        };
        if !more {
            return Some(Ghost(acc));
        }
        match check_node(st, strs, at) {
            Some((e, t)) => {
                proof {
                    let n = acc.len() as int;
                    assert forall|us: Seq<Node>| #[trigger]
                        run_of_root_nodes(st@, strs@, start as int, us) implies us.len() >= n + 1
                        && run_of_root_nodes(st@, strs@, e as int, us.skip(n + 1)) by {
                        let rest = us.skip(n);
                        assert(run_of_root_nodes(st@, strs@, pos as int, rest));
                        assert(rest.len() > 0);
                        lemma_node_unique(st@, strs@, at as int, rest[0], t@);
                        assert(rest.skip(1) =~= us.skip(n + 1));
                    }
                    lemma_root_nodes_push(st@, strs@, start as int, acc, t@);
                    acc = acc.push(t@);
                }
                pos = e;
            },
            None => {
                assert forall|us: Seq<Node>| !run_of_root_nodes(st@, strs@, start as int, us) by {
                    if run_of_root_nodes(st@, strs@, start as int, us) {
                        let rest = us.skip(acc.len() as int);
                        assert(run_of_root_nodes(st@, strs@, pos as int, rest));
                        assert(rest.len() > 0);
                        assert(node_at(st@, strs@, at as int, rest[0]) is Some);
                    }
                }
                return None;
            },
        }
    }
}

/// A root node at `start`, with its name and where its child nodes are looked
/// for, if one stands there.
#[verifier::rlimit(40)]
#[verifier::spinoff_prover]
fn check_root(st: &[u8], strs: &[u8], start: u64) -> (r: Option<(String, u64, Ghost<Node>)>)
    requires
        st@.len() <= u32::MAX,
        strs@.len() <= u32::MAX,
        start <= st@.len() + 3,
    ensures
        match r {
            Some((name, kids, t)) => {
                &&& root_at(st@, strs@, start as int, t@)
                &&& name@ == t@.name
                &&& kids == root_kids(st@, strs@, start as int, t@)
                &&& kids <= st@.len() + 3
            },
            None => forall|t: Node| !root_at(st@, strs@, start as int, t),
        },
{
    match token_at(st, start) {
        Some(t) => if t != FDT_BEGIN_NODE {
            return None;
        },
        None => {
            return None;
        },
    }
    let end: u64 = match text_end(st, start + 4) {
        Some(end) => end,
        None => {
            return None;
        },
    };
    let part = copy_range(st, (start + 4) as usize, end as usize);
    let ghost name = decode_utf8(st@.subrange(start + 4, end as int));
    let text = match utf8_text(part.as_slice()) {
        Some(s) => s,
        None => {
            proof {
                encode_utf8_valid_utf8(name);
            }
            return None;
        },
    };
    let body: u64 = start + 4 + (end - (start + 4) + 4) / 4 * 4;
    assert(body == body_of(start as int, name));
    assert forall|t: Node| #[trigger] root_at(st@, strs@, start as int, t) implies t.name == name
        && run_of_root_props(st@, strs@, body as int, t.props) by {
        lemma_text_unique(st@, start + 4, t.name, name);
    }
    let Ghost(props) = match check_root_props(st, strs, body) {
        Some(x) => x,
        None => {
            return None;
        },
    };
    let first = after_nops(st, body);
    let ghost front: Seq<Prop> = Seq::empty();
    proof {
        lemma_skipped(st@, body as int);
        assert(run_of_root_props(st@, strs@, first as int, props));
        front = lemma_front(st@, strs@, first as int, props);
    }
    let kids = match check_props(st, strs, first) {
        Some((kids, ps)) => {
            proof {
                lemma_props_unique(st@, strs@, first as int, ps@, front);
            }
            kids
        },
        None => {
            assert(run_of_props(st@, strs@, first as int, front));
            return None;
        },
    };
    assert(kids == front_end(st@, strs@, first as int, props));
    assert forall|t: Node| #[trigger] root_at(st@, strs@, start as int, t) implies t.name == name
        && t.props == props && run_of_root_nodes(st@, strs@, kids as int, t.children) by {
        lemma_root_props_unique(st@, strs@, body as int, t.props, props);
    }
    if token_at(st, kids).is_none() {
        return None;
    }
    match check_root_nodes(st, strs, kids) {
        Some(nodes) => {
            let ghost t = Node { name, props, children: nodes@ };
            assert(root_at(st@, strs@, start as int, t));
            Some((text, kids, Ghost(t)))
        },
        None => None,
    }
}

/// A node that stands right at `pos` is the first of the child nodes there.
proof fn lemma_lead_step(st: Seq<u8>, strs: Seq<u8>, pos: int, ts: Seq<Node>, t: Node)
    requires
        run_of_root_nodes(st, strs, pos, ts),
        node_at(st, strs, pos, t) is Some,
    ensures
        ts.len() > 0,
        ts[0] == t,
        run_of_root_nodes(st, strs, node_at(st, strs, pos, t)->0, ts.skip(1)),
        lead(st, strs, pos, ts) == 1 + lead(st, strs, node_at(st, strs, pos, t)->0, ts.skip(1)),
{
    assert(skip_nops(st, pos) == pos);
    lemma_node_goes_on(st, strs, pos, t);
    lemma_node_unique(st, strs, pos, ts[0], t);
}

/// How many of the child nodes `ts` of the root node stand at `start` without
/// filler.
#[verifier::rlimit(40)]
#[verifier::spinoff_prover]
fn count_lead(st: &[u8], strs: &[u8], start: u64, Ghost(ts): Ghost<Seq<Node>>) -> (r: usize)
    requires
        st@.len() <= u32::MAX,
        strs@.len() <= u32::MAX,
        start <= st@.len() + 3,
        run_of_root_nodes(st@, strs@, start as int, ts),
    ensures
        r == lead(st@, strs@, start as int, ts),
        r <= ts.len(),
{
    let mut pos: u64 = start;
    let mut n: usize = 0;
    assert(ts.skip(0) =~= ts);
    loop
        invariant
            st@.len() <= u32::MAX,
            strs@.len() <= u32::MAX,
            n <= pos <= st@.len() + 3,
            n <= ts.len(),
            run_of_root_nodes(st@, strs@, pos as int, ts.skip(n as int)),
            lead(st@, strs@, start as int, ts) == n + lead(
                st@,
                strs@,
                pos as int,
                ts.skip(n as int),
            ),
        decreases st@.len() + 3 - pos,
    {
        let ghost rest = ts.skip(n as int);
        match check_node(st, strs, pos) {
            Some((e, t)) => {
                proof {
                    lemma_lead_step(st@, strs@, pos as int, rest, t@);
                    assert(rest.skip(1) =~= ts.skip(n + 1));
                }
                pos = e;
                n += 1;
            },
            None => {
                assert(rest.len() > 0 ==> node_at(st@, strs@, pos as int, rest[0]) is None);
                return n;
            },
        }
    }
}

/// The blocks of a blob, if its structure block lies inside.
fn blocks<'a>(data: &'a [u8]) -> (r: Option<(&'a [u8], &'a [u8])>)
    requires
        header_fault(data@) is None,
    ensures
        match r {
            Some((st, strs)) => {
                &&& struct_inside(data@)
                &&& st@ == struct_block(data@)
                &&& strs@ == strings_block(data@)
                &&& st@.len() <= u32::MAX
                &&& strs@.len() <= u32::MAX
            },
            None => !struct_inside(data@),
        },
{
    let structs_at = read_be32(data, 8);
    let structs_len = read_be32(data, 36);
    let strings_at = read_be32(data, 12);
    let strings_len = read_be32(data, 32);
    if structs_at as u64 + structs_len as u64 > data.len() as u64 {
        return None;
    }
    let st = slice_subrange(data, structs_at as usize, structs_at as usize + structs_len as usize);
    assert(st@ =~= struct_block(data@));
    if strings_at as u64 + strings_len as u64 > data.len() as u64 {
        let strs = slice_subrange(data, 0, 0);
        assert(strs@ =~= strings_block(data@));
        return Some((st, strs));
    }
    let strs = slice_subrange(
        data,
        strings_at as usize,
        strings_at as usize + strings_len as usize,
    );
    assert(strs@ =~= strings_block(data@));
    Some((st, strs))
}

/// Whether a blob is refused by its header, or holds a tree or no node.
pub fn is_readable(data: &[u8]) -> (r: bool)
    ensures
        r == readable(data@),
{
    if check_header(data).is_some() {
        return true;
    }
    let (st, strs) = match blocks(data) {
        Some(b) => b,
        None => {
            return false;
        },
    };
    let start = after_nops(st, 0);
    let rooted = match token_at(st, start) {
        Some(t) => t == FDT_BEGIN_NODE && !text_broken(st, start + 4),
        None => false,
    };
    if !rooted {
        assert(rootless(data@));
        return true;
    }
    assert(!rootless(data@));
    match check_root(st, strs, start) {
        Some((name, _, held)) => {
            let ghost t = held@;
            let empty: Vec<char> = Vec::new();
            let nameless = answers(name.as_str(), &empty);
            assert(empty@ =~= Seq::<char>::empty());
            let whole = check_node(st, strs, start).is_some();
            proof {
                assert forall|u: Node| #[trigger] tree_in(data@, u) implies u == t by {
                    lemma_root_unique(st@, strs@, start as int, u, t);
                }
                assert forall|u: Node| #[trigger]
                    node_at(st@, strs@, start as int, u) is Some implies u == t by {
                    lemma_node_as_root(st@, strs@, start as int, u);
                    lemma_root_unique(st@, strs@, start as int, u, t);
                }
                if nameless || whole {
                    assert(tree_in(data@, t));
                }
            }
            nameless || whole
        },
        None => false,
    }
}

// ---------------------------------------------------------------------------
// Paths
// ---------------------------------------------------------------------------

/// The value of the first property called `name`.
pub open spec fn value_of(ps: Seq<Prop>, name: Seq<char>) -> Option<Seq<u8>>
    decreases ps.len(),
{
    if ps.len() == 0 {
        None
    } else if ps[0].name == name {
        Some(ps[0].value)
    } else {
        value_of(ps.skip(1), name)
    }
}

/// The node that a path leads to from `t`, whose own name is the first part.
pub open spec fn lookup(t: Node, path: Seq<char>) -> Option<Node>
    decreases t, 0int,
{
    let n = upto(path, '/');
    if !named(t.name, path.take(n)) {
        None
    } else if n + 1 >= path.len() {
        Some(t)
    } else {
        lookup_first(t.children, path.skip(n + 1))
    }
}

/// The first of `ts` under which the path leads somewhere.
pub open spec fn lookup_first(ts: Seq<Node>, path: Seq<char>) -> Option<Node>
    decreases ts, ts.len(),
{
    if ts.len() == 0 {
        None
    } else {
        match lookup(ts[0], path) {
            Some(n) => Some(n),
            None => lookup_first(ts.subrange(1, ts.len() as int), path),
        }
    }
}

/// A text without the zero characters at its end.
pub open spec fn without_nuls(s: Seq<char>) -> Seq<char>
    decreases s.len(),
{
    if s.len() > 0 && s.last() == '\0' {
        without_nuls(s.drop_last())
    } else {
        s
    }
}

/// A tree as a search for a path sees it.
pub ghost struct Searched {
    pub root: Node,
    /// How many of the child nodes of the root node are searched: those
    /// before the first filler.
    pub reach: nat,
    /// The root node stands there as any other node does, so that it can be
    /// passed over.
    pub whole: bool,
}

/// The first part of a path.
pub open spec fn first_part(path: Seq<char>) -> Seq<char> {
    path.take(upto(path, '/'))
}

/// The node that a path leads to from the root node.
pub open spec fn seek(s: Searched, path: Seq<char>) -> Option<Node> {
    let n = upto(path, '/');
    if !named(s.root.name, first_part(path)) {
        None
    } else if n + 1 >= path.len() {
        Some(s.root)
    } else {
        lookup_first(s.root.children.take(s.reach as int), path.skip(n + 1))
    }
}

/// The path that the node `/aliases` gives for `path`.
pub open spec fn alias_target(s: Searched, path: Seq<char>) -> Option<Seq<char>> {
    match seek(s, "/aliases"@) {
        Some(a) => match value_of(a.props, path) {
            Some(v) => if valid_utf8(v) {
                Some(without_nuls(decode_utf8(v)))
            } else {
                None
            },
            None => None,
        },
        None => None,
    }
}

/// The number of aliases of a tree.
pub open spec fn alias_count(s: Searched) -> nat {
    match seek(s, "/aliases"@) {
        Some(a) => a.props.len(),
        None => 0,
    }
}

/// The node that a path leads to, through at most `k` aliases.
pub open spec fn find_path(s: Searched, path: Seq<char>, k: nat) -> Option<Node>
    decreases k,
{
    match seek(s, path) {
        Some(n) => Some(n),
        None => match alias_target(s, path) {
            Some(p) => if k == 0 {
                None
            } else {
                find_path(s, p, (k - 1) as nat)
            },
            None => None,
        },
    }
}

/// The search for a path comes to an end within `k` aliases, and never has to
/// pass over a root node that cannot be.
pub open spec fn settles(s: Searched, path: Seq<char>, k: nat) -> bool
    decreases k,
{
    &&& s.whole || named(s.root.name, first_part(path))
    &&& seek(s, path) is Some || match alias_target(s, path) {
        Some(p) => k > 0 && settles(s, p, (k - 1) as nat),
        None => true,
    }
}

/// The tree that a blob holds.
pub open spec fn tree_of(data: Seq<u8>) -> Node {
    choose|t: Node| tree_in(data, t)
}

/// The tree that a blob holds, as a search sees it.
pub open spec fn searched(data: Seq<u8>) -> Searched {
    let t = tree_of(data);
    let st = struct_block(data);
    let strs = strings_block(data);
    Searched {
        root: t,
        reach: lead(st, strs, root_kids(st, strs, root_start(data), t), t.children),
        whole: whole_in(data, t),
    }
}

/// The path does not lead round in a circle of aliases, nor past a root node
/// that cannot be passed over.
pub open spec fn findable(data: Seq<u8>, path: Seq<char>) -> bool {
    has_tree(data) ==> settles(searched(data), path, alias_count(searched(data)))
}

/// The node that a path leads to in a blob.
pub open spec fn found(data: Seq<u8>, path: Seq<char>) -> Option<Node> {
    if has_tree(data) {
        find_path(searched(data), path, alias_count(searched(data)))
    } else {
        None
    }
}

/// The root node of a blob, if it has one without a name.
pub open spec fn root_of(data: Seq<u8>) -> Option<Node> {
    if has_tree(data) && named(tree_of(data).name, Seq::empty()) {
        Some(tree_of(data))
    } else {
        None
    }
}

/// The tree of a blob is the one it holds.
pub proof fn lemma_tree_of(data: Seq<u8>, t: Node)
    requires
        tree_in(data, t),
    ensures
        has_tree(data),
        tree_of(data) == t,
        tree_in(data, tree_of(data)),
{
    lemma_tree_unique(data, tree_of(data), t);
}

/// In a blob whose root node stands there as any other node does, every child
/// node is searched: a path leads to the node of that path in the tree.
pub proof fn lemma_seek_whole(data: Seq<u8>, t: Node, path: Seq<char>)
    requires
        tree_in(data, t),
        whole_in(data, t),
    ensures
        seek(searched(data), path) == lookup(t, path),
{
    lemma_tree_of(data, t);
    lemma_node_as_root(struct_block(data), strings_block(data), root_start(data), t);
    assert(t.children.take(t.children.len() as int) =~= t.children);
}

proof fn lemma_root_path(data: Seq<u8>)
    ensures
        findable(data, "/"@),
        found(data, "/"@) == root_of(data),
{
    reveal_strlit("/");
    reveal_strlit("/aliases");
    assert(upto("/"@, '/') == 0);
    assert("/"@.take(0) =~= Seq::<char>::empty());
    assert(upto("/aliases"@, '/') == 0);
    assert("/aliases"@.take(0) =~= Seq::<char>::empty());
    if has_tree(data) {
        let t = choose|t: Node| tree_in(data, t);
        lemma_tree_of(data, t);
    }
}

// ---------------------------------------------------------------------------
// The `fdt` crate
// ---------------------------------------------------------------------------

#[verifier::external_type_specification]
#[verifier::external_body]
pub struct ExFdt<'a>(fdt::Fdt<'a>);

#[verifier::external_type_specification]
#[verifier::external_body]
pub struct ExFdtNode<'b, 'a: 'b>(fdt::node::FdtNode<'b, 'a>);

/// The bytes that an opened blob holds.
pub uninterp spec fn blob_data(f: fdt::Fdt<'_>) -> Seq<u8>;

/// What a node holds, if the bytes it stands on can be read as a node.
pub uninterp spec fn node_held(n: fdt::node::FdtNode<'_, '_>) -> Option<Node>;

/// `fdt::Fdt::new`: keeps the bytes, unless there are fewer than a header
/// has, the magic number is wrong, or the total size in the header is larger
/// than the buffer.
#[verifier::external_body]
fn open_blob<'a>(data: &'a [u8]) -> (r: Result<fdt::Fdt<'a>, BlobFault>)
    ensures
        match r {
            Ok(f) => header_fault(data@) is None && blob_data(f) == data@,
            Err(e) => header_fault(data@) == Some(e),
        },
{
    match fdt::Fdt::new(data) {
        Ok(f) => Ok(f),
        Err(fdt::FdtError::BadMagic) => Err(BlobFault::BadMagic),
        Err(fdt::FdtError::BadPtr) => Err(BlobFault::BadPtr),
        Err(fdt::FdtError::BufferTooSmall) => Err(BlobFault::BufferTooSmall),
    }
}

/// `fdt::Fdt::find_node`: the node that the path leads to in the tree of the
/// blob, of whose root node only the child nodes before the first filler are
/// searched; none, if the blob has no root node. Where no node answers, the
/// path is looked up among the properties of the node `/aliases`, and the
/// search goes on with the path found there. A root node that the path does
/// not name is passed over, which takes one that stands there as any other
/// node does.
#[verifier::external_body]
fn find_node<'b, 'a>(f: &'b fdt::Fdt<'a>, path: &str) -> (r: Option<fdt::node::FdtNode<'b, 'a>>)
    requires
        has_tree(blob_data(*f)) || rootless(blob_data(*f)),
        findable(blob_data(*f), path@),
    ensures
        match r {
            Some(n) => node_held(n) is Some && node_held(n) == found(blob_data(*f), path@),
            None => found(blob_data(*f), path@) is None,
        },
{
    f.find_node(path)
}

/// `fdt::node::FdtNode::name`: the name of the node.
#[verifier::external_body]
fn node_name(n: &fdt::node::FdtNode<'_, '_>) -> (r: String)
    requires
        node_held(*n) is Some,
    ensures
        r@ == node_held(*n)->0.name,
{
    n.name.to_string()
}

/// `fdt::node::FdtNode::properties`: the properties of the node, in order.
#[verifier::external_body]
fn node_properties(n: &fdt::node::FdtNode<'_, '_>) -> (r: Vec<DtProperty>)
    requires
        node_held(*n) is Some,
    ensures
        prop_views(r@) == node_held(*n)->0.props,
{
    n.properties()
        .map(|p| DtProperty { name: p.name.to_string(), value: p.value.to_vec() })
        .collect()
}

/// `fdt::node::FdtNode::children`: the child nodes, in order.
#[verifier::external_body]
fn node_children<'b, 'a>(n: &fdt::node::FdtNode<'b, 'a>) -> (r: Vec<fdt::node::FdtNode<'b, 'a>>)
    requires
        node_held(*n) is Some,
    ensures
        r@.len() == node_held(*n)->0.children.len(),
        forall|i: int|
            0 <= i < r@.len() ==> node_held(#[trigger] r@[i]) == Some(
                node_held(*n)->0.children[i],
            ),
{
    n.children().collect()
}

/// A copy of the node with everything below it.
fn load(n: &fdt::node::FdtNode<'_, '_>) -> (r: DtNode)
    requires
        node_held(*n) is Some,
    ensures
        r@ == node_held(*n)->0,
    decreases node_held(*n)->0,
{
    let name = node_name(n);
    let properties = node_properties(n);
    let kids = node_children(n);
    let mut children: Vec<DtNode> = Vec::new();
    let ghost t = node_held(*n)->0;
    let mut i: usize = 0;
    while i < kids.len()
        invariant
            i <= kids@.len(),
            kids@.len() == t.children.len(),
            node_held(*n) == Some(t),
            forall|j: int|
                0 <= j < kids@.len() ==> node_held(#[trigger] kids@[j]) == Some(t.children[j]),
            children@.len() == i,
            forall|j: int| 0 <= j < i ==> (#[trigger] children@[j])@ == t.children[j],
        decreases kids@.len() - i,
    {
        let child = load(&kids[i]);
        children.push(child);
        i += 1;
    }
    let r = DtNode { name, properties, children };
    assert(r@.children =~= t.children);
    assert(r@ == t);
    r
}

/// The root node of a blob.
pub fn read_root(data: &[u8]) -> (r: Result<Option<DtNode>, BlobFault>)
    requires
        readable(data@),
    ensures
        match header_fault(data@) {
            Some(e) => r == Err::<Option<DtNode>, BlobFault>(e),
            None => match root_of(data@) {
                Some(t) => r matches Ok(Some(d)) && d@ == t,
                None => r matches Ok(None),
            },
        },
{
    let f = match open_blob(data) {
        Ok(f) => f,
        Err(e) => {
            return Err(e);
        },
    };
    proof {
        lemma_root_path(data@);
    }
    match find_node(&f, "/") {
        Some(n) => Ok(Some(load(&n))),
        None => Ok(None),
    }
}

/// The value of the first property called `name`.
pub fn property<'a>(t: &'a DtNode, name: &str) -> (r: Option<&'a Vec<u8>>)
    ensures
        match r {
            Some(v) => value_of(t@.props, name@) == Some(v@),
            None => value_of(t@.props, name@) is None,
        },
{
    let mut i: usize = 0;
    assert(t@.props.skip(0) =~= t@.props);
    while i < t.properties.len()
        invariant
            i <= t.properties@.len(),
            value_of(t@.props, name@) == value_of(t@.props.skip(i as int), name@),
        decreases t.properties@.len() - i,
    {
        let ghost rest = t@.props.skip(i as int);
        assert(rest[0] == t.properties@[i as int].view());
        assert(rest.skip(1) =~= t@.props.skip(i + 1));
        if same(t.properties[i].name.as_str(), name) {
            return Some(&t.properties[i].value);
        }
        i += 1;
    }
    None
}

// ---------------------------------------------------------------------------
// Following a path
// ---------------------------------------------------------------------------

fn answers(name: &str, part: &Vec<char>) -> (r: bool)
    ensures
        r == named(name@, part@),
{
    let n = chars_of(name);
    let addressed = find_char(part, 0, '@') < part.len();
    proof {
        lemma_upto(part@, '@');
        assert(part@.skip(0) =~= part@);
        assert(n@.skip(0) =~= n@);
        lemma_upto(n@, '@');
        if !addressed {
            assert(!part@.contains('@'));
        }
    }
    let end = if addressed {
        n.len()
    } else {
        find_char(&n, 0, '@')
    };
    let a = string_of(&n, 0, end);
    let b = string_of(part, 0, part.len());
    assert(n@.subrange(0, end as int) =~= n@.take(end as int));
    assert(n@.take(n@.len() as int) =~= n@);
    assert(part@.subrange(0, part@.len() as int) =~= part@);
    same(a.as_str(), b.as_str())
}

/// The node that a path leads to from `t`.
fn lookup_node<'a>(t: &'a DtNode, path: &Vec<char>) -> (r: Option<&'a DtNode>)
    ensures
        match r {
            Some(n) => lookup(t@, path@) == Some(n@),
            None => lookup(t@, path@) is None,
        },
    decreases t,
{
    let n = find_char(path, 0, '/');
    assert(path@.skip(0) =~= path@);
    let part = chars_of(string_of(path, 0, n).as_str());
    assert(part@ =~= path@.take(n as int));
    if !answers(t.name.as_str(), &part) {
        return None;
    }
    if path.len() - n <= 1 {
        return Some(t);
    }
    let rest = chars_of(string_of(path, n + 1, path.len()).as_str());
    assert(rest@ =~= path@.skip(n + 1));
    let ghost kids = t@.children;
    let mut i: usize = 0;
    assert(kids.subrange(0, kids.len() as int) =~= kids);
    while i < t.children.len()
        invariant
            i <= t.children@.len(),
            kids == t@.children,
            lookup(t@, path@) == lookup_first(kids.subrange(i as int, kids.len() as int), rest@),
        decreases t.children@.len() - i,
    {
        let ghost left = kids.subrange(i as int, kids.len() as int);
        assert(left[0] == t.children@[i as int]@);
        assert(left.subrange(1, left.len() as int) =~= kids.subrange(i + 1, kids.len() as int));
        match lookup_node(&t.children[i], &rest) {
            Some(found) => {
                return Some(found);
            },
            None => {},
        }
        i += 1;
    }
    None
}

/// What a search for a path sees of a blob.
struct Search {
    root: DtNode,
    reach: usize,
    whole: bool,
}

impl Search {
    spec fn view(&self) -> Searched {
        Searched { root: self.root@, reach: self.reach as nat, whole: self.whole }
    }

    spec fn wf(&self) -> bool {
        self.reach <= self.root@.children.len()
    }
}

/// The node that a path leads to from the root node.
fn seek_node<'a>(s: &'a Search, path: &Vec<char>) -> (r: Option<&'a DtNode>)
    requires
        s.wf(),
    ensures
        match r {
            Some(n) => seek(s@, path@) == Some(n@),
            None => seek(s@, path@) is None,
        },
{
    let n = find_char(path, 0, '/');
    assert(path@.skip(0) =~= path@);
    let part = chars_of(string_of(path, 0, n).as_str());
    assert(part@ =~= first_part(path@));
    if !answers(s.root.name.as_str(), &part) {
        return None;
    }
    if path.len() - n <= 1 {
        return Some(&s.root);
    }
    let rest = chars_of(string_of(path, n + 1, path.len()).as_str());
    assert(rest@ =~= path@.skip(n + 1));
    let ghost kids = s@.root.children.take(s.reach as int);
    let mut i: usize = 0;
    assert(kids.subrange(0, kids.len() as int) =~= kids);
    while i < s.reach
        invariant
            s.wf(),
            i <= s.reach,
            kids == s@.root.children.take(s.reach as int),
            seek(s@, path@) == lookup_first(kids.subrange(i as int, kids.len() as int), rest@),
        decreases s.reach - i,
    {
        let ghost left = kids.subrange(i as int, kids.len() as int);
        assert(left[0] == s.root.children@[i as int]@);
        assert(left.subrange(1, left.len() as int) =~= kids.subrange(i + 1, kids.len() as int));
        match lookup_node(&s.root.children[i], &rest) {
            Some(found) => {
                return Some(found);
            },
            None => {},
        }
        i += 1;
    }
    None
}

fn strip_nuls(s: &str) -> (r: String)
    ensures
        r@ == without_nuls(s@),
{
    let a = chars_of(s);
    let mut n = a.len();
    assert(a@.take(n as int) =~= a@);
    while n > 0 && a[n - 1] == '\0'
        invariant
            n <= a@.len(),
            without_nuls(s@) == without_nuls(a@.take(n as int)),
        decreases n,
    {
        assert(a@.take(n as int).drop_last() =~= a@.take(n - 1));
        n = n - 1;
    }
    assert(a@.subrange(0, n as int) =~= a@.take(n as int));
    string_of(&a, 0, n)
}

/// The path that the alias `path` stands for.
fn alias_of(s: &Search, path: &str) -> (r: Option<String>)
    requires
        s.wf(),
    ensures
        match r {
            Some(p) => alias_target(s@, path@) == Some(p@),
            None => alias_target(s@, path@) is None,
        },
{
    match seek_node(s, &chars_of("/aliases")) {
        Some(a) => match property(a, path) {
            Some(v) => match utf8_text(v.as_slice()) {
                Some(t) => Some(strip_nuls(t.as_str())),
                None => None,
            },
            None => None,
        },
        None => None,
    }
}

fn settles_within(s: &Search, path: &str, k: usize) -> (r: bool)
    requires
        s.wf(),
    ensures
        r == settles(s@, path@, k as nat),
    decreases k,
{
    let p = chars_of(path);
    let n = find_char(&p, 0, '/');
    assert(p@.skip(0) =~= p@);
    let part = chars_of(string_of(&p, 0, n).as_str());
    assert(part@ =~= first_part(path@));
    if !s.whole && !answers(s.root.name.as_str(), &part) {
        return false;
    }
    if seek_node(s, &p).is_some() {
        return true;
    }
    match alias_of(s, path) {
        Some(p) => k > 0 && settles_within(s, p.as_str(), k - 1),
        None => true,
    }
}

/// What a search sees of a blob whose root node has no name.
#[verifier::rlimit(40)]
#[verifier::spinoff_prover]
fn search_of(data: &[u8]) -> (r: Option<Search>)
    requires
        readable(data@),
        header_fault(data@) is None,
    ensures
        match r {
            Some(s) => s.wf() && has_tree(data@) && s@ == searched(data@),
            None => root_of(data@) is None,
        },
{
    let root = match read_root(data) {
        Ok(Some(t)) => t,
        _ => {
            return None;
        },
    };
    let ghost t = tree_of(data@);
    proof {
        let u = choose|u: Node| tree_in(data@, u);
        lemma_tree_of(data@, u);
    }
    match blocks(data) {
        Some((st, strs)) => {
            let start = after_nops(st, 0);
            match check_root(st, strs, start) {
                Some((_, kids, u)) => {
                    proof {
                        lemma_root_unique(st@, strs@, start as int, t, u@);
                    }
                    let reach = count_lead(st, strs, kids, Ghost(t.children));
                    let whole = check_node(st, strs, start).is_some();
                    assert forall|u: Node| #[trigger]
                        node_at(st@, strs@, start as int, u) is Some implies u == t by {
                        lemma_node_as_root(st@, strs@, start as int, u);
                        lemma_root_unique(st@, strs@, start as int, u, t);
                    }
                    Some(Search { root, reach, whole })
                },
                None => {
                    assert(root_at(st@, strs@, start as int, t));
                    None
                },
            }
        },
        None => None,
    }
}

/// Whether the search for an absolute path in a blob comes to an end.
pub fn is_findable(data: &[u8], path: &str) -> (r: bool)
    requires
        readable(data@),
        header_fault(data@) is None,
        path@.len() > 0,
        path@[0] == '/',
    ensures
        r == findable(data@, path@),
{
    match search_of(data) {
        Some(s) => {
            let count = match seek_node(&s, &chars_of("/aliases")) {
                Some(a) => a.properties.len(),
                None => 0,
            };
            settles_within(&s, path, count)
        },
        None => {
            proof {
                reveal_strlit("/aliases");
                assert(upto("/aliases"@, '/') == 0);
                assert("/aliases"@.take(0) =~= Seq::<char>::empty());
                assert(upto(path@, '/') == 0);
                assert(path@.take(0) =~= Seq::<char>::empty());
                if has_tree(data@) {
                    let u = choose|u: Node| tree_in(data@, u);
                    lemma_tree_of(data@, u);
                    assert(seek(searched(data@), path@) is None);
                    assert(seek(searched(data@), "/aliases"@) is None);
                }
            }
            true
        },
    }
}

/// The node that a path leads to in a blob.
pub fn find(data: &[u8], path: &str) -> (r: Option<DtNode>)
    requires
        readable(data@),
        header_fault(data@) is None,
        findable(data@, path@),
    ensures
        match r {
            Some(n) => found(data@, path@) == Some(n@),
            None => found(data@, path@) is None,
        },
{
    match open_blob(data) {
        Ok(f) => match find_node(&f, path) {
            Some(n) => Some(load(&n)),
            None => None,
        },
        Err(_) => None,
    }
}

} // verus!
