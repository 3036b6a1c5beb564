//! Device trees: the nodes the library works on, and how a flattened
//! device tree blob holds one.

use crate::bytes::be_word;
use crate::text::upto;
use vstd::prelude::*;
use vstd::utf8::*;

verus! {

/// A property: a name and raw bytes.
#[verifier::ext_equal]
pub ghost struct Prop {
    pub name: Seq<char>,
    pub value: Seq<u8>,
}

/// A node: its name, its properties and its child nodes, in order.
#[verifier::ext_equal]
pub ghost struct Node {
    pub name: Seq<char>,
    pub props: Seq<Prop>,
    pub children: Seq<Node>,
}

/// A property of a device tree node.
pub struct DtProperty {
    pub name: String,
    pub value: Vec<u8>,
}

/// A device tree node with everything below it.
pub struct DtNode {
    pub name: String,
    pub properties: Vec<DtProperty>,
    pub children: Vec<DtNode>,
}

impl DtProperty {
    pub open spec fn view(&self) -> Prop {
        Prop { name: self.name@, value: self.value@ }
    }
}

/// The views of a list of properties.
pub open spec fn prop_views(v: Seq<DtProperty>) -> Seq<Prop> {
    v.map_values(|p: DtProperty| p.view())
}

impl DtNode {
    pub open spec fn view(&self) -> Node
        decreases self,
    {
        Node {
            name: self.name@,
            props: prop_views(self.properties@),
            children: Seq::new(
                self.children@.len(),
                |i: int|
                    if 0 <= i < self.children@.len() {
                        self.children@[i].view()
                    } else {
                        arbitrary()
                    },
            ),
        }
    }
}

// ---------------------------------------------------------------------------
// The blob format
// ---------------------------------------------------------------------------

pub const FDT_MAGIC: u32 = 0xd00dfeed;

pub const FDT_BEGIN_NODE: u32 = 1;

pub const FDT_END_NODE: u32 = 2;

pub const FDT_PROP: u32 = 3;

pub const FDT_NOP: u32 = 4;

/// Why a blob is refused by its header.
#[derive(Debug, Clone, Copy, PartialEq, Eq, Structural)]
pub enum BlobFault {
    BadMagic,
    BadPtr,
    BufferTooSmall,
}

/// What is wrong with the header of a blob, if anything.
pub open spec fn header_fault(data: Seq<u8>) -> Option<BlobFault> {
    if data.len() < 40 {
        Some(BlobFault::BufferTooSmall)
    } else if be_word(data, 0) != FDT_MAGIC {
        Some(BlobFault::BadMagic)
    } else if data.len() < be_word(data, 4) {
        Some(BlobFault::BufferTooSmall)
    } else {
        None
    }
}

/// The structure block that the header names lies inside the blob.
pub open spec fn struct_inside(data: Seq<u8>) -> bool {
    be_word(data, 8) + be_word(data, 36) <= data.len()
}

/// The strings block that the header names lies inside the blob.
pub open spec fn strings_inside(data: Seq<u8>) -> bool {
    be_word(data, 12) + be_word(data, 32) <= data.len()
}

/// The structure block of a blob.
pub open spec fn struct_block(data: Seq<u8>) -> Seq<u8> {
    data.subrange(be_word(data, 8) as int, be_word(data, 8) + be_word(data, 36))
}

/// The strings block of a blob; no name can be read from one that does not
/// lie inside.
pub open spec fn strings_block(data: Seq<u8>) -> Seq<u8> {
    if strings_inside(data) {
        data.subrange(be_word(data, 12) as int, be_word(data, 12) + be_word(data, 32))
    } else {
        Seq::empty()
    }
}

/// The token at a position of the structure block.
pub open spec fn token(st: Seq<u8>, pos: int) -> Option<u32> {
    if 0 <= pos && pos + 4 <= st.len() {
        Some(be_word(st, pos))
    } else {
        None
    }
}

/// The position after the filler tokens at `pos`.
pub open spec fn skip_nops(st: Seq<u8>, pos: int) -> int
    decreases st.len() - pos,
{
    if token(st, pos) == Some(FDT_NOP) {
        skip_nops(st, pos + 4)
    } else {
        pos
    }
}

/// `n` rounded up to a multiple of four.
pub open spec fn aligned(n: int) -> int {
    (n + 3) / 4 * 4
}

/// No byte is zero.
pub open spec fn no_nul(b: Seq<u8>) -> bool {
    forall|i: int| 0 <= i < b.len() ==> #[trigger] b[i] != 0
}

/// The text `name`, ended by a zero byte, stands at `pos`.
pub open spec fn text_at(b: Seq<u8>, pos: int, name: Seq<char>) -> bool {
    let u = encode_utf8(name);
    &&& no_nul(u)
    &&& 0 <= pos
    &&& pos + u.len() + 1 <= b.len()
    &&& b.subrange(pos, pos + u.len()) == u
    &&& b[pos + u.len()] == 0
}

/// Bytes that are no text, ended by a zero byte, stand at `pos`.
pub open spec fn broken_text_at(b: Seq<u8>, pos: int) -> bool {
    exists|e: int|
        0 <= pos <= e < b.len() && #[trigger] b[e] == 0 && no_nul(b.subrange(pos, e))
            && !valid_utf8(b.subrange(pos, e))
}

/// Where the property `p` ends that stands at `pos`, if it stands there.
pub open spec fn prop_at(st: Seq<u8>, strs: Seq<u8>, pos: int, p: Prop) -> Option<int> {
    if token(st, pos) == Some(FDT_PROP) && token(st, pos + 4) == Some(p.value.len() as u32)
        && p.value.len() <= u32::MAX && token(st, pos + 8) is Some && pos + 12 + p.value.len()
        <= st.len() && st.subrange(pos + 12, pos + 12 + p.value.len()) == p.value && text_at(
        strs,
        be_word(st, pos + 8) as int,
        p.name,
    ) {
        Some(pos + 12 + aligned(p.value.len() as int))
    } else {
        None
    }
}

/// Where the properties `ps` end that stand one after the other at `pos`.
pub open spec fn props_at(st: Seq<u8>, strs: Seq<u8>, pos: int, ps: Seq<Prop>) -> Option<int>
    decreases ps.len(),
{
    if ps.len() == 0 {
        Some(pos)
    } else {
        match prop_at(st, strs, pos, ps[0]) {
            Some(e) => props_at(st, strs, e, ps.skip(1)),
            None => None,
        }
    }
}

/// Where the node `t` ends that stands at `pos`: a begin token, the name,
/// the properties, the child nodes, filler, an end token.
pub open spec fn node_at(st: Seq<u8>, strs: Seq<u8>, pos: int, t: Node) -> Option<int>
    decreases t, 0int,
{
    if token(st, pos) == Some(FDT_BEGIN_NODE) && text_at(st, pos + 4, t.name) {
        match props_at(st, strs, pos + 4 + aligned(encode_utf8(t.name).len() as int + 1), t.props) {
            Some(p) => match nodes_at(st, strs, p, t.children) {
                Some(c) => if token(st, skip_nops(st, c)) == Some(FDT_END_NODE) {
                    Some(skip_nops(st, c) + 4)
                } else {
                    None
                },
                None => None,
            },
            None => None,
        }
    } else {
        None
    }
}

/// Where the nodes `ts` end that stand one after the other at `pos`.
pub open spec fn nodes_at(st: Seq<u8>, strs: Seq<u8>, pos: int, ts: Seq<Node>) -> Option<int>
    decreases ts, ts.len(),
{
    if ts.len() == 0 {
        Some(pos)
    } else {
        match node_at(st, strs, pos, ts[0]) {
            Some(e) => nodes_at(st, strs, e, ts.subrange(1, ts.len() as int)),
            None => None,
        }
    }
}

/// A node name answers to a part of a path: whole if the part has a unit
/// address, else up to its own unit address.
pub open spec fn named(name: Seq<char>, part: Seq<char>) -> bool {
    if part.contains('@') {
        name == part
    } else {
        name.take(upto(name, '@')) == part
    }
}

// ---------------------------------------------------------------------------
// The root node
// ---------------------------------------------------------------------------

/// Where the properties `ps` of the root node end that stand at `pos`, each
/// after some filler.
pub open spec fn root_props_at(st: Seq<u8>, strs: Seq<u8>, pos: int, ps: Seq<Prop>) -> Option<int>
    decreases ps.len(),
{
    if ps.len() == 0 {
        Some(pos)
    } else {
        match prop_at(st, strs, skip_nops(st, pos), ps[0]) {
            Some(e) => root_props_at(st, strs, e, ps.skip(1)),
            None => None,
        }
    }
}

/// Where the first of the properties `ps` end: those that stand one after the
/// other at `pos`, without filler between them.
pub open spec fn front_end(st: Seq<u8>, strs: Seq<u8>, pos: int, ps: Seq<Prop>) -> int
    decreases ps.len(),
{
    if ps.len() == 0 {
        pos
    } else {
        match prop_at(st, strs, pos, ps[0]) {
            Some(e) => front_end(st, strs, e, ps.skip(1)),
            None => pos,
        }
    }
}

/// Where the child nodes `ts` of the root node end that stand at `pos`, each
/// after some filler.
pub open spec fn root_nodes_at(st: Seq<u8>, strs: Seq<u8>, pos: int, ts: Seq<Node>) -> Option<int>
    decreases ts.len(),
{
    if ts.len() == 0 {
        Some(pos)
    } else {
        match node_at(st, strs, skip_nops(st, pos), ts[0]) {
            Some(e) => root_nodes_at(st, strs, e, ts.skip(1)),
            None => None,
        }
    }
}

/// How many of the nodes `ts` stand one after the other at `pos`, without
/// filler before or between them.
pub open spec fn lead(st: Seq<u8>, strs: Seq<u8>, pos: int, ts: Seq<Node>) -> nat
    decreases ts.len(),
{
    if ts.len() == 0 {
        0
    } else {
        match node_at(st, strs, pos, ts[0]) {
            Some(e) => 1 + lead(st, strs, e, ts.skip(1)),
            None => 0,
        }
    }
}

/// No node that has a name follows after the filler at `pos`.
pub open spec fn nodes_stop(st: Seq<u8>, pos: int) -> bool {
    let p = skip_nops(st, pos);
    token(st, p) != Some(FDT_BEGIN_NODE) || broken_text_at(st, p + 4)
}

/// Where the properties of a node at `pos` start.
pub open spec fn body_of(pos: int, name: Seq<char>) -> int {
    pos + 4 + aligned(encode_utf8(name).len() as int + 1)
}

/// Where the child nodes of the root node are looked for: after the first
/// filler and the properties that stand behind it without more filler.
pub open spec fn root_kids(st: Seq<u8>, strs: Seq<u8>, pos: int, t: Node) -> int {
    front_end(st, strs, skip_nops(st, body_of(pos, t.name)), t.props)
}

/// The root node `t` stands at `pos`: a begin token, the name, the properties
/// and the child nodes, with filler in between. Unlike other nodes, the root
/// node needs no end token. Properties that follow after filler between
/// properties hide the child nodes.
pub open spec fn root_at(st: Seq<u8>, strs: Seq<u8>, pos: int, t: Node) -> bool {
    let props = root_props_at(st, strs, body_of(pos, t.name), t.props);
    let kids = root_kids(st, strs, pos, t);
    let nodes = root_nodes_at(st, strs, kids, t.children);
    &&& token(st, pos) == Some(FDT_BEGIN_NODE)
    &&& text_at(st, pos + 4, t.name)
    &&& props is Some
    &&& token(st, skip_nops(st, props->0)) != Some(FDT_PROP)
    &&& token(st, kids) is Some
    &&& nodes is Some
    &&& nodes_stop(st, nodes->0)
}

/// Where the root node of a blob starts.
pub open spec fn root_start(data: Seq<u8>) -> int {
    skip_nops(struct_block(data), 0)
}

/// The root node of the blob stands there as any other node does.
pub open spec fn whole_in(data: Seq<u8>, t: Node) -> bool {
    node_at(struct_block(data), strings_block(data), root_start(data), t) is Some
}

/// The blob holds the tree `t`. A root node that has a name of its own stands
/// there as any other node does.
pub open spec fn tree_in(data: Seq<u8>, t: Node) -> bool {
    &&& header_fault(data) is None
    &&& struct_inside(data)
    &&& root_at(struct_block(data), strings_block(data), root_start(data), t)
    &&& named(t.name, Seq::empty()) || whole_in(data, t)
}

/// The blob holds a tree.
pub open spec fn has_tree(data: Seq<u8>) -> bool {
    exists|t: Node| tree_in(data, t)
}

/// The structure of the blob starts with no node, or with one whose name is
/// no text.
pub open spec fn rootless(data: Seq<u8>) -> bool {
    let st = struct_block(data);
    let pos = root_start(data);
    &&& header_fault(data) is None
    &&& struct_inside(data)
    &&& token(st, pos) != Some(FDT_BEGIN_NODE) || broken_text_at(st, pos + 4)
}

/// The blob is refused by its header, or holds a tree or no node at all.
pub open spec fn readable(data: Seq<u8>) -> bool {
    header_fault(data) is Some || has_tree(data) || rootless(data)
}

// ---------------------------------------------------------------------------
// A blob holds one tree only
// ---------------------------------------------------------------------------

/// Only one text can stand at a position.
pub proof fn lemma_text_unique(b: Seq<u8>, pos: int, n1: Seq<char>, n2: Seq<char>)
    requires
        text_at(b, pos, n1),
        text_at(b, pos, n2),
    ensures
        n1 == n2,
{
    let u1 = encode_utf8(n1);
    let u2 = encode_utf8(n2);
    if u1.len() < u2.len() {
        assert(u2[u1.len() as int] == b.subrange(pos, pos + u2.len())[u1.len() as int]);
        assert(false);
    }
    if u2.len() < u1.len() {
        assert(u1[u2.len() as int] == b.subrange(pos, pos + u1.len())[u2.len() as int]);
        assert(false);
    }
    encode_utf8_decode_utf8(n1);
    encode_utf8_decode_utf8(n2);
}

/// Only one property can stand at a position.
pub proof fn lemma_prop_unique(st: Seq<u8>, strs: Seq<u8>, pos: int, p: Prop, q: Prop)
    requires
        prop_at(st, strs, pos, p) is Some,
        prop_at(st, strs, pos, q) is Some,
    ensures
        p == q,
{
    lemma_text_unique(strs, be_word(st, pos + 8) as int, p.name, q.name);
    assert(p.value.len() == q.value.len());
    assert(p.value == q.value);
}

/// Only one run of properties can stand at a position, when no property
/// follows it.
pub proof fn lemma_props_unique(st: Seq<u8>, strs: Seq<u8>, pos: int, ps: Seq<Prop>, qs: Seq<Prop>)
    requires
        props_at(st, strs, pos, ps) is Some,
        props_at(st, strs, pos, qs) is Some,
        token(st, props_at(st, strs, pos, ps)->0) != Some(FDT_PROP),
        token(st, props_at(st, strs, pos, qs)->0) != Some(FDT_PROP),
    ensures
        ps == qs,
    decreases ps.len(),
{
    if ps.len() == 0 || qs.len() == 0 {
        if ps.len() > 0 {
            assert(prop_at(st, strs, pos, ps[0]) is Some);
        }
        if qs.len() > 0 {
            assert(prop_at(st, strs, pos, qs[0]) is Some);
        }
        assert(ps =~= qs);
    } else {
        lemma_prop_unique(st, strs, pos, ps[0], qs[0]);
        let e = prop_at(st, strs, pos, ps[0])->0;
        lemma_props_unique(st, strs, e, ps.skip(1), qs.skip(1));
        assert(ps =~= seq![ps[0]] + ps.skip(1));
        assert(qs =~= seq![qs[0]] + qs.skip(1));
    }
}

/// After the last child stands filler or the end of the node.
proof fn lemma_end_token(st: Seq<u8>, pos: int)
    requires
        token(st, skip_nops(st, pos)) == Some(FDT_END_NODE),
    ensures
        token(st, pos) == Some(FDT_NOP) || token(st, pos) == Some(FDT_END_NODE),
{
}

/// Only one node can stand at a position.
pub proof fn lemma_node_unique(st: Seq<u8>, strs: Seq<u8>, pos: int, t: Node, u: Node)
    requires
        node_at(st, strs, pos, t) is Some,
        node_at(st, strs, pos, u) is Some,
    ensures
        t == u,
    decreases t, 0int,
{
    lemma_text_unique(st, pos + 4, t.name, u.name);
    let p = pos + 4 + aligned(encode_utf8(t.name).len() as int + 1);
    let tp = props_at(st, strs, p, t.props)->0;
    let up = props_at(st, strs, p, u.props)->0;
    let tc = nodes_at(st, strs, tp, t.children)->0;
    let uc = nodes_at(st, strs, up, u.children)->0;
    lemma_end_token(st, tc);
    lemma_end_token(st, uc);
    if t.children.len() > 0 {
        assert(node_at(st, strs, tp, t.children[0]) is Some);
    }
    if u.children.len() > 0 {
        assert(node_at(st, strs, up, u.children[0]) is Some);
    }
    lemma_props_unique(st, strs, p, t.props, u.props);
    lemma_nodes_unique(st, strs, tp, t.children, u.children);
}

/// Only one run of nodes can stand at a position, when no node follows it.
pub proof fn lemma_nodes_unique(st: Seq<u8>, strs: Seq<u8>, pos: int, ts: Seq<Node>, us: Seq<Node>)
    requires
        nodes_at(st, strs, pos, ts) is Some,
        nodes_at(st, strs, pos, us) is Some,
        token(st, nodes_at(st, strs, pos, ts)->0) != Some(FDT_BEGIN_NODE),
        token(st, nodes_at(st, strs, pos, us)->0) != Some(FDT_BEGIN_NODE),
    ensures
        ts == us,
    decreases ts, ts.len(),
{
    if ts.len() == 0 || us.len() == 0 {
        if ts.len() > 0 {
            assert(node_at(st, strs, pos, ts[0]) is Some);
        }
        if us.len() > 0 {
            assert(node_at(st, strs, pos, us[0]) is Some);
        }
        assert(ts =~= us);
    } else {
        lemma_node_unique(st, strs, pos, ts[0], us[0]);
        let e = node_at(st, strs, pos, ts[0])->0;
        let t1 = ts.subrange(1, ts.len() as int);
        let u1 = us.subrange(1, us.len() as int);
        lemma_nodes_unique(st, strs, e, t1, u1);
        assert(ts =~= seq![ts[0]] + t1);
        assert(us =~= seq![us[0]] + u1);
    }
}

/// Text is not broken.
pub proof fn lemma_text_whole(b: Seq<u8>, pos: int, n: Seq<char>)
    requires
        text_at(b, pos, n),
    ensures
        !broken_text_at(b, pos),
{
    let u = encode_utf8(n);
    encode_utf8_valid_utf8(n);
    if broken_text_at(b, pos) {
        let e = choose|e: int|
            0 <= pos <= e < b.len() && #[trigger] b[e] == 0 && no_nul(b.subrange(pos, e))
                && !valid_utf8(b.subrange(pos, e));
        if pos + u.len() < e {
            assert(b.subrange(pos, e)[u.len() as int] == b[pos + u.len()]);
        } else if e < pos + u.len() {
            assert(u[e - pos] == b.subrange(pos, pos + u.len())[e - pos]);
        }
        assert(e == pos + u.len());
    }
}

/// There is no filler behind filler.
pub proof fn lemma_skipped(st: Seq<u8>, pos: int)
    ensures
        token(st, skip_nops(st, pos)) != Some(FDT_NOP),
        skip_nops(st, skip_nops(st, pos)) == skip_nops(st, pos),
        skip_nops(st, pos) >= pos,
    decreases st.len() - pos,
{
    if token(st, pos) == Some(FDT_NOP) {
        lemma_skipped(st, pos + 4);
    }
}

/// The properties `ps` of the root node stand at `pos` and no other follows.
pub open spec fn run_of_root_props(st: Seq<u8>, strs: Seq<u8>, pos: int, ps: Seq<Prop>) -> bool {
    &&& root_props_at(st, strs, pos, ps) is Some
    &&& token(st, skip_nops(st, root_props_at(st, strs, pos, ps)->0)) != Some(FDT_PROP)
}

/// The child nodes `ts` of the root node stand at `pos` and no other follows.
pub open spec fn run_of_root_nodes(st: Seq<u8>, strs: Seq<u8>, pos: int, ts: Seq<Node>) -> bool {
    &&& root_nodes_at(st, strs, pos, ts) is Some
    &&& nodes_stop(st, root_nodes_at(st, strs, pos, ts)->0)
}

/// Only one run of properties of the root node can stand at a position.
pub proof fn lemma_root_props_unique(
    st: Seq<u8>,
    strs: Seq<u8>,
    pos: int,
    ps: Seq<Prop>,
    qs: Seq<Prop>,
)
    requires
        run_of_root_props(st, strs, pos, ps),
        run_of_root_props(st, strs, pos, qs),
    ensures
        ps == qs,
    decreases ps.len(),
{
    let p = skip_nops(st, pos);
    if ps.len() == 0 || qs.len() == 0 {
        if ps.len() > 0 {
            assert(prop_at(st, strs, p, ps[0]) is Some);
        }
        if qs.len() > 0 {
            assert(prop_at(st, strs, p, qs[0]) is Some);
        }
        assert(ps =~= qs);
    } else {
        lemma_prop_unique(st, strs, p, ps[0], qs[0]);
        let e = prop_at(st, strs, p, ps[0])->0;
        lemma_root_props_unique(st, strs, e, ps.skip(1), qs.skip(1));
        assert(ps =~= seq![ps[0]] + ps.skip(1));
        assert(qs =~= seq![qs[0]] + qs.skip(1));
    }
}

/// Where a node stands, the nodes do not stop.
pub proof fn lemma_node_goes_on(st: Seq<u8>, strs: Seq<u8>, pos: int, t: Node)
    requires
        node_at(st, strs, skip_nops(st, pos), t) is Some,
    ensures
        !nodes_stop(st, pos),
{
    lemma_text_whole(st, skip_nops(st, pos) + 4, t.name);
}

/// Only one run of child nodes of the root node can stand at a position.
pub proof fn lemma_root_nodes_unique(
    st: Seq<u8>,
    strs: Seq<u8>,
    pos: int,
    ts: Seq<Node>,
    us: Seq<Node>,
)
    requires
        run_of_root_nodes(st, strs, pos, ts),
        run_of_root_nodes(st, strs, pos, us),
    ensures
        ts == us,
    decreases ts.len(),
{
    let p = skip_nops(st, pos);
    if ts.len() == 0 || us.len() == 0 {
        if ts.len() > 0 {
            lemma_node_goes_on(st, strs, pos, ts[0]);
        }
        if us.len() > 0 {
            lemma_node_goes_on(st, strs, pos, us[0]);
        }
        assert(ts =~= us);
    } else {
        lemma_node_unique(st, strs, p, ts[0], us[0]);
        let e = node_at(st, strs, p, ts[0])->0;
        lemma_root_nodes_unique(st, strs, e, ts.skip(1), us.skip(1));
        assert(ts =~= seq![ts[0]] + ts.skip(1));
        assert(us =~= seq![us[0]] + us.skip(1));
    }
}

/// Only one root node can stand at a position.
pub proof fn lemma_root_unique(st: Seq<u8>, strs: Seq<u8>, pos: int, t: Node, u: Node)
    requires
        root_at(st, strs, pos, t),
        root_at(st, strs, pos, u),
    ensures
        t == u,
{
    lemma_text_unique(st, pos + 4, t.name, u.name);
    lemma_root_props_unique(st, strs, body_of(pos, t.name), t.props, u.props);
    lemma_root_nodes_unique(st, strs, root_kids(st, strs, pos, t), t.children, u.children);
}

/// Properties without filler are properties of a root node.
proof fn lemma_props_as_root(st: Seq<u8>, strs: Seq<u8>, pos: int, ps: Seq<Prop>)
    requires
        props_at(st, strs, pos, ps) is Some,
    ensures
        root_props_at(st, strs, pos, ps) == props_at(st, strs, pos, ps),
        front_end(st, strs, pos, ps) == props_at(st, strs, pos, ps)->0,
    decreases ps.len(),
{
    if ps.len() > 0 {
        lemma_props_as_root(st, strs, prop_at(st, strs, pos, ps[0])->0, ps.skip(1));
    }
}

/// Nodes without filler are child nodes of a root node.
proof fn lemma_nodes_as_root(st: Seq<u8>, strs: Seq<u8>, pos: int, ts: Seq<Node>)
    requires
        nodes_at(st, strs, pos, ts) is Some,
    ensures
        root_nodes_at(st, strs, pos, ts) == nodes_at(st, strs, pos, ts),
        lead(st, strs, pos, ts) == ts.len(),
    decreases ts.len(),
{
    if ts.len() > 0 {
        assert(ts.skip(1) =~= ts.subrange(1, ts.len() as int));
        lemma_nodes_as_root(st, strs, node_at(st, strs, pos, ts[0])->0, ts.skip(1));
    }
}

/// A node that stands there as any other node does can be a root node, and no
/// filler stands between its child nodes.
pub proof fn lemma_node_as_root(st: Seq<u8>, strs: Seq<u8>, pos: int, t: Node)
    requires
        node_at(st, strs, pos, t) is Some,
    ensures
        root_at(st, strs, pos, t),
        lead(st, strs, root_kids(st, strs, pos, t), t.children) == t.children.len(),
{
    let body = body_of(pos, t.name);
    let p = props_at(st, strs, body, t.props)->0;
    let c = nodes_at(st, strs, p, t.children)->0;
    lemma_props_as_root(st, strs, body, t.props);
    lemma_nodes_as_root(st, strs, p, t.children);
    lemma_end_token(st, c);
    lemma_skipped(st, body);
    if t.children.len() > 0 {
        assert(node_at(st, strs, p, t.children[0]) is Some);
        assert(token(st, p) == Some(FDT_BEGIN_NODE));
        assert(skip_nops(st, p) == p);
    }
    if t.props.len() > 0 {
        assert(prop_at(st, strs, body, t.props[0]) is Some);
        assert(skip_nops(st, body) == body);
    } else {
        assert(p == body);
    }
}

/// A blob holds at most one tree: whoever reads it reads the same tree.
pub proof fn lemma_tree_unique(data: Seq<u8>, t: Node, u: Node)
    requires
        tree_in(data, t),
        tree_in(data, u),
    ensures
        t == u,
{
    lemma_root_unique(struct_block(data), strings_block(data), root_start(data), t, u);
}

/// A blob that holds a tree is not one without a root node.
pub proof fn lemma_tree_has_root(data: Seq<u8>, t: Node)
    requires
        tree_in(data, t),
    ensures
        !rootless(data),
{
    lemma_text_whole(struct_block(data), root_start(data) + 4, t.name);
}

} // verus!
