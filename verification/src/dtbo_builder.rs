//! A builder of flattened device tree blobs.
//!
//! A builder is the list of what was written to it, in order. The blob it
//! finishes is a function of that list: a header, an empty memory
//! reservation block, the structure block and the strings block, in which
//! each property name stands once.

use crate::bytes::{be32, be_word, lemma_be_word_in, push_all, push_be32};
use crate::text::{lemma_views_push, same, views};
use crate::tree::{
    aligned, header_fault, lemma_node_as_root, no_nul, node_at, nodes_at, prop_at, props_at,
    skip_nops, strings_block, strings_inside, struct_block, struct_inside, text_at, token, tree_in,
    whole_in, Node, Prop, FDT_BEGIN_NODE, FDT_END_NODE, FDT_MAGIC, FDT_PROP,
};
use vstd::prelude::*;
use vstd::utf8::*;

verus! {

pub const FDT_VERSION: u32 = 17;

pub const FDT_COMPAT_VERSION: u32 = 16;

pub const FDT_END: u32 = 9;

pub const FDT_HEADER_SIZE: u32 = 40;

pub const MEM_RSV_SIZE: u32 = 16;

/// What was written to a builder.
pub ghost enum Event {
    Begin(Seq<char>),
    End,
    Write(Prop),
    /// A name went into the strings, with no property of that name.
    Intern(Seq<char>),
}

/// `n` zero bytes.
pub open spec fn zeros(n: nat) -> Seq<u8> {
    Seq::new(n, |i: int| 0u8)
}

/// `b` filled up with zeros to a multiple of four bytes.
pub open spec fn padded(b: Seq<u8>) -> Seq<u8> {
    b + zeros((aligned(b.len() as int) - b.len()) as nat)
}

/// `names`, with `n` in it.
pub open spec fn with_name(names: Seq<Seq<char>>, n: Seq<char>) -> Seq<Seq<char>> {
    if names.contains(n) {
        names
    } else {
        names.push(n)
    }
}

/// The names in the strings after a list of events, in the order of their
/// first use.
pub open spec fn names(ev: Seq<Event>) -> Seq<Seq<char>>
    decreases ev.len(),
{
    if ev.len() == 0 {
        Seq::empty()
    } else {
        match ev.last() {
            Event::Write(p) => with_name(names(ev.drop_last()), p.name),
            Event::Intern(n) => with_name(names(ev.drop_last()), n),
            _ => names(ev.drop_last()),
        }
    }
}

/// The names one after the other, each ended by a zero byte.
pub open spec fn strings_bytes(names: Seq<Seq<char>>) -> Seq<u8>
    decreases names.len(),
{
    if names.len() == 0 {
        Seq::empty()
    } else {
        strings_bytes(names.drop_last()) + encode_utf8(names.last()).push(0)
    }
}

/// Where `n` stands among the names.
pub open spec fn name_offset(names: Seq<Seq<char>>, n: Seq<char>) -> nat
    decreases names.len(),
{
    if names.len() == 0 {
        0
    } else if names.drop_last().contains(n) {
        name_offset(names.drop_last(), n)
    } else {
        strings_bytes(names.drop_last()).len()
    }
}

/// The bytes of one event in the structure block.
pub open spec fn event_bytes(names: Seq<Seq<char>>, e: Event) -> Seq<u8> {
    match e {
        Event::Begin(name) => be32(FDT_BEGIN_NODE) + padded(encode_utf8(name).push(0)),
        Event::End => be32(FDT_END_NODE),
        Event::Write(p) => be32(FDT_PROP) + be32(p.value.len() as usize as u32) + be32(
            name_offset(names, p.name) as usize as u32,
        ) + padded(p.value),
        Event::Intern(_) => Seq::empty(),
    }
}

/// The structure block of a list of events, without its end token.
pub open spec fn struct_bytes(ev: Seq<Event>) -> Seq<u8>
    decreases ev.len(),
{
    if ev.len() == 0 {
        Seq::empty()
    } else {
        struct_bytes(ev.drop_last()) + event_bytes(names(ev), ev.last())
    }
}

/// The size of the blob.
pub open spec fn blob_len(ev: Seq<Event>) -> nat {
    60 + struct_bytes(ev).len() + strings_bytes(names(ev)).len()
}

/// The words of the header of the blob.
pub open spec fn header_words(ev: Seq<Event>) -> Seq<u32> {
    let structs = struct_bytes(ev).len() + 4;
    let strings = strings_bytes(names(ev)).len();
    seq![
        FDT_MAGIC,
        blob_len(ev) as u32,
        56u32,
        (56 + structs) as u32,
        FDT_HEADER_SIZE,
        FDT_VERSION,
        FDT_COMPAT_VERSION,
        0u32,
        strings as u32,
        structs as u32,
    ]
}

/// The blob of a list of events.
pub open spec fn blob(ev: Seq<Event>) -> Seq<u8> {
    be32_list(header_words(ev)) + zeros(16) + struct_bytes(ev) + be32(FDT_END) + strings_bytes(names(ev))
}

/// A list of texts, each ended by a zero byte.
pub open spec fn string_list(vals: Seq<&str>) -> Seq<u8>
    decreases vals.len(),
{
    if vals.len() == 0 {
        Seq::empty()
    } else {
        string_list(vals.drop_last()) + encode_utf8(vals.last()@).push(0)
    }
}

/// The big-endian bytes of a list of numbers.
pub open spec fn be32_list(vals: Seq<u32>) -> Seq<u8>
    decreases vals.len(),
{
    if vals.len() == 0 {
        Seq::empty()
    } else {
        be32_list(vals.drop_last()) + be32(vals.last())
    }
}

/// The structure block stays aligned to four bytes.
pub proof fn lemma_struct_aligned(ev: Seq<Event>)
    ensures
        struct_bytes(ev).len() % 4 == 0,
    decreases ev.len(),
{
    if ev.len() > 0 {
        lemma_struct_aligned(ev.drop_last());
        match ev.last() {
            Event::Begin(name) => {
                lemma_padded_len(encode_utf8(name).push(0));
            },
            Event::End => {},
            Event::Intern(_) => {},
            Event::Write(p) => {
                lemma_padded_len(p.value);
            },
        }
    }
}

/// Padded bytes fill whole words.
pub proof fn lemma_padded_len(b: Seq<u8>)
    ensures
        padded(b).len() == aligned(b.len() as int),
        padded(b).len() % 4 == 0,
{
}

/// Padding after whole words.
proof fn lemma_padded_after(a: Seq<u8>, b: Seq<u8>)
    requires
        a.len() % 4 == 0,
    ensures
        padded(a + b) == a + padded(b),
{
    assert(padded(a + b) =~= a + padded(b));
}

/// The structure block after one more property.
proof fn lemma_struct_push(ev: Seq<Event>, p: Prop, head: Seq<u8>)
    requires
        head == struct_bytes(ev) + be32(FDT_PROP) + be32(p.value.len() as usize as u32) + be32(
            name_offset(with_name(names(ev), p.name), p.name) as usize as u32,
        ),
    ensures
        names(ev.push(Event::Write(p))) == with_name(names(ev), p.name),
        struct_bytes(ev.push(Event::Write(p))) == head + padded(p.value),
{
    let more = ev.push(Event::Write(p));
    assert(more.drop_last() =~= ev);
    let a = be32(FDT_PROP);
    let b = be32(p.value.len() as usize as u32);
    let c = be32(name_offset(with_name(names(ev), p.name), p.name) as usize as u32);
    let d = padded(p.value);
    assert(struct_bytes(ev) + (a + b + c + d) =~= struct_bytes(ev) + a + b + c + d);
}

proof fn lemma_offset_kept(tab: Seq<Seq<char>>, m: Seq<char>, n: Seq<char>)
    requires
        tab.contains(n),
    ensures
        name_offset(tab.push(m), n) == name_offset(tab, n),
{
    assert(tab.push(m).drop_last() =~= tab);
}

pub struct FdtBuilder {
    struct_buf: Vec<u8>,
    strings_buf: Vec<u8>,
    names: Vec<String>,
    offsets: Vec<u32>,
    events: Ghost<Seq<Event>>,
}

impl FdtBuilder {
    /// What was written so far.
    pub closed spec fn view(&self) -> Seq<Event> {
        self.events@
    }

    closed spec fn strings_ok(&self) -> bool {
        let tab = views(self.names@);
        &&& self.strings_buf@ == strings_bytes(tab)
        &&& self.offsets@.len() == tab.len()
        &&& forall|i: int|
            0 <= i < tab.len() ==> self.offsets@[i] == name_offset(
                tab,
                #[trigger] tab[i],
            ) as usize as u32
    }

    /// The buffers hold what was written.
    pub closed spec fn wf(&self) -> bool {
        &&& self.strings_ok()
        &&& views(self.names@) == names(self.events@)
        &&& self.struct_buf@ == struct_bytes(self.events@)
    }

    pub fn new() -> (r: Self)
        ensures
            r.wf(),
            r@ == Seq::<Event>::empty(),
    {
        let r = FdtBuilder {
            struct_buf: Vec::new(),
            strings_buf: Vec::new(),
            names: Vec::new(),
            offsets: Vec::new(),
            events: Ghost(Seq::empty()),
        };
        assert(views(r.names@) =~= Seq::<Seq<char>>::empty());
        r
    }

    pub fn begin_node(&mut self, name: &str)
        requires
            old(self).wf(),
        ensures
            final(self).wf(),
            final(self)@ == old(self)@.push(Event::Begin(name@)),
    {
        proof {
            lemma_struct_aligned(self.events@);
        }
        self.put_u32(FDT_BEGIN_NODE);
        self.put_str_aligned(name);
        proof {
            let e = Event::Begin(name@);
            assert(self.events@.push(e).drop_last() =~= self.events@);
            assert(self.struct_buf@ =~= struct_bytes(self.events@.push(e)));
            self.events@ = self.events@.push(e);
        }
    }

    pub fn end_node(&mut self)
        requires
            old(self).wf(),
        ensures
            final(self).wf(),
            final(self)@ == old(self)@.push(Event::End),
    {
        self.put_u32(FDT_END_NODE);
        proof {
            let e = Event::End;
            assert(self.events@.push(e).drop_last() =~= self.events@);
            self.events@ = self.events@.push(e);
        }
    }

    pub fn prop_u32(&mut self, name: &str, val: u32)
        requires
            old(self).wf(),
        ensures
            final(self).wf(),
            final(self)@ == old(self)@.push(
                Event::Write((Prop { name: name@, value: be32(val) })),
            ),
    {
        let mut data: Vec<u8> = Vec::new();
        push_be32(&mut data, val);
        assert(data@ =~= be32(val));
        self.prop_bytes(name, data.as_slice());
    }

    /// Writes a text, ended by a zero byte.
    pub fn prop_str(&mut self, name: &str, val: &str)
        requires
            old(self).wf(),
        ensures
            final(self).wf(),
            final(self)@ == old(self)@.push(
                Event::Write((Prop { name: name@, value: encode_utf8(val@).push(0) })),
            ),
    {
        let mut data: Vec<u8> = Vec::new();
        push_all(&mut data, val.as_bytes());
        data.push(0);
        assert(data@ =~= encode_utf8(val@).push(0));
        self.prop_bytes(name, data.as_slice());
    }

    /// Writes a list of texts, each ended by a zero byte.
    pub fn prop_str_list(&mut self, name: &str, vals: &[&str])
        requires
            old(self).wf(),
        ensures
            final(self).wf(),
            final(self)@ == old(self)@.push(
                Event::Write((Prop { name: name@, value: string_list(vals@) })),
            ),
    {
        let mut data: Vec<u8> = Vec::new();
        let mut i: usize = 0;
        while i < vals.len()
            invariant
                i <= vals@.len(),
                data@ == string_list(vals@.take(i as int)),
            decreases vals@.len() - i,
        {
            let ghost before = data@;
            push_all(&mut data, vals[i].as_bytes());
            data.push(0);
            assert(vals@.take(i + 1).drop_last() =~= vals@.take(i as int));
            assert(data@ =~= before + encode_utf8(vals@[i as int]@).push(0));
            i += 1;
        }
        assert(vals@.take(i as int) =~= vals@);
        self.prop_bytes(name, data.as_slice());
    }

    /// Writes raw bytes as a property value.
    pub fn prop_bytes(&mut self, name: &str, data: &[u8])
        requires
            old(self).wf(),
        ensures
            final(self).wf(),
            final(self)@ == old(self)@.push(Event::Write((Prop { name: name@, value: data@ }))),
    {
        proof {
            lemma_struct_aligned(self.events@);
        }
        let nameoff = self.place_name(name);
        let len = data.len() as u32;
        self.put_u32(FDT_PROP);
        self.put_u32(len);
        self.put_u32(nameoff);
        let ghost mid = self.struct_buf@;
        push_all(&mut self.struct_buf, data);
        self.align4();
        proof {
            let p = Prop { name: name@, value: data@ };
            let ev = self.events@.push(Event::Write(p));
            lemma_padded_after(mid, data@);
            lemma_struct_push(self.events@, p, mid);
            self.events@ = ev;
        }
    }

    /// Writes an array of numbers.
    pub fn prop_u32_array(&mut self, name: &str, vals: &[u32])
        requires
            old(self).wf(),
        ensures
            final(self).wf(),
            final(self)@ == old(self)@.push(
                Event::Write((Prop { name: name@, value: be32_list(vals@) })),
            ),
    {
        let mut data: Vec<u8> = Vec::new();
        push_be32_list(&mut data, vals);
        assert(data@ =~= be32_list(vals@));
        self.prop_bytes(name, data.as_slice());
    }

    /// Writes an empty (boolean) property.
    pub fn prop_empty(&mut self, name: &str)
        requires
            old(self).wf(),
        ensures
            final(self).wf(),
            final(self)@ == old(self)@.push(
                Event::Write((Prop { name: name@, value: Seq::<u8>::empty() })),
            ),
    {
        let data: Vec<u8> = Vec::new();
        assert(data@ =~= Seq::<u8>::empty());
        self.prop_bytes(name, data.as_slice());
    }

    /// Whether the blob is short enough for its header.
    pub fn fits(&self) -> (r: bool)
        requires
            self.wf(),
        ensures
            r == (blob_len(self@) <= u32::MAX),
    {
        let structs = self.struct_buf.len() as u64;
        let strings = self.strings_buf.len() as u64;
        structs <= 0xffff_ffff && strings <= 0xffff_ffff && 60 + structs + strings <= 0xffff_ffff
    }

    /// The blob.
    pub fn finish(self) -> (out: Vec<u8>)
        requires
            self.wf(),
            blob_len(self@) <= u32::MAX,
        ensures
            out@ == blob(self@),
    {
        let ghost ev = self@;
        let mut this = self;
        this.put_u32(FDT_END);
        let structs = this.struct_buf.len() as u32;
        let strings = this.strings_buf.len() as u32;
        let off_mem_rsvmap = FDT_HEADER_SIZE;
        let off_dt_struct = off_mem_rsvmap + MEM_RSV_SIZE;
        let off_dt_strings = off_dt_struct + structs;
        let totalsize = off_dt_strings + strings;
        let words: Vec<u32> = vec![
            FDT_MAGIC,
            totalsize,
            off_dt_struct,
            off_dt_strings,
            off_mem_rsvmap,
            FDT_VERSION,
            FDT_COMPAT_VERSION,
            0,
            strings,
            structs,
        ];
        assert(words@ =~= header_words(ev));
        let mut out: Vec<u8> = Vec::new();
        push_be32_list(&mut out, words.as_slice());
        assert(out@ =~= be32_list(header_words(ev)));
        push_zeros(&mut out, 16);
        push_all(&mut out, this.struct_buf.as_slice());
        push_all(&mut out, this.strings_buf.as_slice());
        assert(out@ =~= blob(ev));
        out
    }

    fn put_u32(&mut self, val: u32)
        ensures
            final(self).struct_buf@ == old(self).struct_buf@ + be32(val),
            final(self).strings_buf == old(self).strings_buf,
            final(self).names == old(self).names,
            final(self).offsets == old(self).offsets,
            final(self).events == old(self).events,
    {
        push_be32(&mut self.struct_buf, val);
    }

    fn put_str_aligned(&mut self, s: &str)
        requires
            old(self).struct_buf@.len() % 4 == 0,
        ensures
            final(self).struct_buf@ == old(self).struct_buf@ + padded(encode_utf8(s@).push(0)),
            final(self).strings_buf == old(self).strings_buf,
            final(self).names == old(self).names,
            final(self).offsets == old(self).offsets,
            final(self).events == old(self).events,
    {
        push_all(&mut self.struct_buf, s.as_bytes());
        self.struct_buf.push(0);
        self.align4();
        assert(self.struct_buf@ =~= old(self).struct_buf@ + padded(encode_utf8(s@).push(0)));
    }

    fn align4(&mut self)
        ensures
            final(self).struct_buf@ == padded(old(self).struct_buf@),
            final(self).strings_buf == old(self).strings_buf,
            final(self).names == old(self).names,
            final(self).offsets == old(self).offsets,
            final(self).events == old(self).events,
    {
        let rem: usize = self.struct_buf.len() % 4;
        if rem != 0 {
            push_zeros(&mut self.struct_buf, 4 - rem);
        }
        assert(self.struct_buf@ =~= padded(old(self).struct_buf@));
    }

    /// Puts a name into the strings block, unless it is there, and says at
    /// which offset it stands.
    pub fn intern_string(&mut self, name: &str) -> (off: u32)
        requires
            old(self).wf(),
        ensures
            final(self).wf(),
            final(self)@ == old(self)@.push(Event::Intern(name@)),
            off == name_offset(names(final(self)@), name@) as usize as u32,
    {
        let off = self.place_name(name);
        proof {
            let ev = self.events@.push(Event::Intern(name@));
            assert(ev.drop_last() =~= self.events@);
            assert(struct_bytes(ev) =~= struct_bytes(self.events@));
            self.events@ = ev;
        }
        off
    }

    fn place_name(&mut self, name: &str) -> (off: u32)
        requires
            old(self).strings_ok(),
        ensures
            final(self).strings_ok(),
            views(final(self).names@) == with_name(views(old(self).names@), name@),
            off == name_offset(views(final(self).names@), name@) as usize as u32,
            final(self).struct_buf == old(self).struct_buf,
            final(self).events == old(self).events,
    {
        let ghost tab = views(self.names@);
        let mut i: usize = 0;
        while i < self.names.len()
            invariant
                i <= self.names@.len(),
                *self == *old(self),
                tab == views(self.names@),
                self.strings_ok(),
                forall|j: int| 0 <= j < i ==> tab[j] != name@,
            decreases self.names@.len() - i,
        {
            assert(tab[i as int] == self.names@[i as int]@);
            if same(self.names[i].as_str(), name) {
                assert(tab.contains(name@));
                return self.offsets[i];
            }
            i += 1;
        }
        assert(!tab.contains(name@));
        let off = self.strings_buf.len() as u32;
        push_all(&mut self.strings_buf, name.as_bytes());
        self.strings_buf.push(0);
        let owned = name.to_string();
        proof {
            lemma_views_push(self.names@, owned);
        }
        self.names.push(owned);
        self.offsets.push(off);
        proof {
            let new = tab.push(name@);
            assert(new.drop_last() =~= tab);
            assert(self.strings_buf@ =~= strings_bytes(new));
            assert forall|j: int| 0 <= j < new.len() implies self.offsets@[j] == name_offset(
                new,
                #[trigger] new[j],
            ) as usize as u32 by {
                if j < tab.len() {
                    assert(new[j] == tab[j]);
                    assert(tab.contains(tab[j]));
                    lemma_offset_kept(tab, name@, tab[j]);
                }
            }
        }
        off
    }
}

/// Appends the big-endian bytes of a list of numbers.
fn push_be32_list(out: &mut Vec<u8>, vals: &[u32])
    ensures
        final(out)@ == old(out)@ + be32_list(vals@),
{
    let mut i: usize = 0;
    assert(out@ =~= old(out)@ + be32_list(vals@.take(0)));
    while i < vals.len()
        invariant
            i <= vals@.len(),
            out@ == old(out)@ + be32_list(vals@.take(i as int)),
        decreases vals@.len() - i,
    {
        push_be32(out, vals[i]);
        assert(vals@.take(i + 1).drop_last() =~= vals@.take(i as int));
        assert(out@ =~= old(out)@ + be32_list(vals@.take(i + 1)));
        i += 1;
    }
    assert(vals@.take(i as int) =~= vals@);
}

/// Appends `n` zero bytes.
pub(crate) fn push_zeros(out: &mut Vec<u8>, n: usize)
    ensures
        final(out)@ == old(out)@ + zeros(n as nat),
{
    let mut i: usize = 0;
    while i < n
        invariant
            i <= n,
            out@ == old(out)@ + zeros(i as nat),
        decreases n - i,
    {
        out.push(0);
        i += 1;
        assert(out@ =~= old(out)@ + zeros(i as nat));
    }
    assert(out@ =~= old(out)@ + zeros(n as nat));
}

// ---------------------------------------------------------------------------
// What is written can be read back
// ---------------------------------------------------------------------------

/// Writing a list of properties.
pub open spec fn prop_events(ps: Seq<Prop>) -> Seq<Event> {
    ps.map_values(|p: Prop| Event::Write(p))
}

/// Writing a node with everything below it.
pub open spec fn node_events(t: Node) -> Seq<Event>
    decreases t, 0int,
{
    seq![Event::Begin(t.name)] + prop_events(t.props) + nodes_events(t.children) + seq![Event::End]
}

/// Writing nodes one after the other.
pub open spec fn nodes_events(ts: Seq<Node>) -> Seq<Event>
    decreases ts, ts.len(),
{
    if ts.len() == 0 {
        Seq::empty()
    } else {
        node_events(ts[0]) + nodes_events(ts.subrange(1, ts.len() as int))
    }
}

/// No name in the tree holds a zero byte.
pub open spec fn plain(t: Node) -> bool
    decreases t,
{
    &&& no_nul(encode_utf8(t.name))
    &&& forall|i: int| 0 <= i < t.props.len() ==> no_nul(encode_utf8(#[trigger] t.props[i].name))
    &&& forall|i: int| 0 <= i < t.children.len() ==> plain(#[trigger] t.children[i])
}

/// Where the `k`-th event starts in the structure block.
pub open spec fn event_offset(ev: Seq<Event>, k: int) -> int {
    struct_bytes(ev.take(k)).len() as int
}

proof fn lemma_names_hold(ev: Seq<Event>, k: int)
    requires
        0 <= k < ev.len(),
        ev[k] is Write,
    ensures
        names(ev).contains(ev[k]->Write_0.name),
    decreases ev.len(),
{
    let tab = names(ev.drop_last());
    let n = ev[k]->Write_0.name;
    if k < ev.len() - 1 {
        lemma_names_hold(ev.drop_last(), k);
        let i = choose|i: int| 0 <= i < tab.len() && tab[i] == n;
        if ev.last() is Write {
            let m = ev.last()->Write_0.name;
            assert(with_name(tab, m)[i] == n);
        }
        if ev.last() is Intern {
            let m = ev.last()->Intern_0;
            assert(with_name(tab, m)[i] == n);
        }
    } else {
        if !tab.contains(n) {
            assert(tab.push(n)[tab.len() as int] == n);
        }
    }
}

/// Each event's bytes stand at its place in the structure block.
proof fn lemma_event_placed(ev: Seq<Event>, k: int)
    requires
        0 <= k < ev.len(),
    ensures
        0 <= event_offset(ev, k) <= event_offset(ev, k + 1) <= struct_bytes(ev).len(),
        struct_bytes(ev).subrange(event_offset(ev, k), event_offset(ev, k + 1)) == event_bytes(
            names(ev),
            ev[k],
        ),
    decreases ev.len(),
{
    let pre = ev.drop_last();
    let last = event_bytes(names(ev), ev.last());
    assert(struct_bytes(ev) == struct_bytes(pre) + last);
    if k == ev.len() - 1 {
        assert(ev.take(k) =~= pre);
        assert(ev.take(k + 1) =~= ev);
        assert(struct_bytes(ev).subrange(event_offset(ev, k), event_offset(ev, k + 1)) =~= last);
    } else {
        lemma_event_placed(pre, k);
        assert(ev.take(k) =~= pre.take(k));
        assert(ev.take(k + 1) =~= pre.take(k + 1));
        let a = event_offset(ev, k);
        let b = event_offset(ev, k + 1);
        assert(struct_bytes(ev).subrange(a, b) =~= struct_bytes(pre).subrange(a, b));
        if ev[k] is Write {
            let n = ev[k]->Write_0.name;
            lemma_names_hold(pre, k);
            if ev.last() is Write {
                lemma_offset_kept(names(pre), ev.last()->Write_0.name, n);
            }
            if ev.last() is Intern {
                lemma_offset_kept(names(pre), ev.last()->Intern_0, n);
            }
        }
    }
}

/// A name that is interned again changes nothing; a new one goes, ended by a
/// zero byte, to the end of the strings. No other name moves.
pub proof fn lemma_interned(tab: Seq<Seq<char>>, n: Seq<char>, m: Seq<char>)
    ensures
        strings_bytes(with_name(tab, n)) == (if tab.contains(n) {
            strings_bytes(tab)
        } else {
            strings_bytes(tab) + encode_utf8(n).push(0)
        }),
        with_name(tab, n).contains(n),
        with_name(with_name(tab, n), n) == with_name(tab, n),
        tab.contains(m) ==> name_offset(with_name(tab, n), m) == name_offset(tab, m),
{
    let new = with_name(tab, n);
    if !tab.contains(n) {
        assert(new.drop_last() =~= tab);
        assert(new[new.len() - 1] == n);
        if tab.contains(m) {
            lemma_offset_kept(tab, n, m);
        }
    }
}

proof fn lemma_offset_inside(tab: Seq<Seq<char>>, n: Seq<char>)
    requires
        tab.contains(n),
    ensures
        name_offset(tab, n) < strings_bytes(tab).len(),
    decreases tab.len(),
{
    if tab.drop_last().contains(n) {
        lemma_offset_inside(tab.drop_last(), n);
    }
}

/// Different names stand at different offsets.
pub proof fn lemma_offsets_differ(tab: Seq<Seq<char>>, n: Seq<char>, m: Seq<char>)
    requires
        tab.contains(n),
        tab.contains(m),
        n != m,
    ensures
        name_offset(tab, n) != name_offset(tab, m),
        strings_bytes(tab).len() <= u32::MAX ==> name_offset(tab, n) as usize as u32
            != name_offset(tab, m) as usize as u32,
    decreases tab.len(),
{
    let pre = tab.drop_last();
    lemma_offset_inside(tab, n);
    lemma_offset_inside(tab, m);
    let i = choose|i: int| 0 <= i < tab.len() && tab[i] == n;
    let j = choose|j: int| 0 <= j < tab.len() && tab[j] == m;
    if i < pre.len() {
        assert(pre[i] == n);
    }
    if j < pre.len() {
        assert(pre[j] == m);
    }
    if pre.contains(n) && pre.contains(m) {
        lemma_offsets_differ(pre, n, m);
    } else if pre.contains(n) {
        lemma_offset_inside(pre, n);
    } else {
        lemma_offset_inside(pre, m);
    }
}

/// Interning a name leaves the structure block alone. The name then stands at
/// its offset, ended by a zero byte. The strings block has grown at its end by
/// just that, unless it had the name. Interned again, the name keeps its
/// offset, and so does every other name, each with an offset of its own.
pub proof fn lemma_intern_string(ev: Seq<Event>, n: Seq<char>, m: Seq<char>)
    requires
        no_nul(encode_utf8(n)),
        strings_bytes(names(ev.push(Event::Intern(n)))).len() <= u32::MAX,
    ensures
        ({
            let after = ev.push(Event::Intern(n));
            let again = after.push(Event::Intern(n));
            let off = name_offset(names(after), n);
            let other = name_offset(names(after), m);
            &&& struct_bytes(after) == struct_bytes(ev)
            &&& text_at(strings_bytes(names(after)), off as int, n)
            &&& strings_bytes(names(after)) == (if names(ev).contains(n) {
                strings_bytes(names(ev))
            } else {
                strings_bytes(names(ev)) + encode_utf8(n).push(0)
            })
            &&& names(again) == names(after)
            &&& names(ev).contains(m) ==> other == name_offset(names(ev), m)
            &&& names(after).contains(m) && m != n ==> off as usize as u32 != other as usize as u32
        }),
{
    let after = ev.push(Event::Intern(n));
    let again = after.push(Event::Intern(n));
    assert(after.drop_last() =~= ev);
    assert(again.drop_last() =~= after);
    assert(struct_bytes(after) =~= struct_bytes(ev));
    lemma_interned(names(ev), n, m);
    lemma_name_stands(names(after), n);
    if names(after).contains(m) && m != n {
        lemma_offsets_differ(names(after), n, m);
    }
}

/// An interned name can be read at its offset.
pub proof fn lemma_name_stands(tab: Seq<Seq<char>>, n: Seq<char>)
    requires
        tab.contains(n),
        no_nul(encode_utf8(n)),
    ensures
        text_at(strings_bytes(tab), name_offset(tab, n) as int, n),
    decreases tab.len(),
{
    let pre = tab.drop_last();
    let u = encode_utf8(n);
    let b = strings_bytes(tab);
    let at = name_offset(tab, n) as int;
    if pre.contains(n) {
        lemma_name_stands(pre, n);
        assert(b.subrange(at, at + u.len()) =~= strings_bytes(pre).subrange(at, at + u.len()));
    } else {
        let i = choose|i: int| 0 <= i < tab.len() && tab[i] == n;
        if i < pre.len() {
            assert(pre[i] == n);
        }
        assert(tab.last() == n);
        assert(b.subrange(at, at + u.len()) =~= u);
    }
}

/// Three words and then bytes.
proof fn lemma_words_at(st: Seq<u8>, pos: int, a: u32, b: u32, c: u32, v: Seq<u8>)
    requires
        0 <= pos,
        pos + 12 + padded(v).len() <= st.len(),
        st.subrange(pos, pos + 12 + padded(v).len()) == be32(a) + be32(b) + be32(c) + padded(v),
    ensures
        token(st, pos) == Some(a),
        token(st, pos + 4) == Some(b),
        token(st, pos + 8) == Some(c),
        pos + 12 + v.len() <= st.len(),
        st.subrange(pos + 12, pos + 12 + v.len()) == v,
{
    let s = st.subrange(pos, pos + 12 + padded(v).len());
    lemma_padded_len(v);
    assert(st.subrange(pos, pos + 4) =~= s.subrange(0, 4));
    assert(s.subrange(0, 4) =~= be32(a));
    assert(st.subrange(pos + 4, pos + 8) =~= s.subrange(4, 8));
    assert(s.subrange(4, 8) =~= be32(b));
    assert(st.subrange(pos + 8, pos + 12) =~= s.subrange(8, 12));
    assert(s.subrange(8, 12) =~= be32(c));
    lemma_be_word_in(st, pos, a);
    lemma_be_word_in(st, pos + 4, b);
    lemma_be_word_in(st, pos + 8, c);
    assert(st.subrange(pos + 12, pos + 12 + v.len()) =~= s.subrange(12, 12 + v.len() as int));
    assert(s.subrange(12, 12 + v.len() as int) =~= v);
}

/// `st` starts with the structure block of `ev`, and both blocks are short
/// enough for their offsets.
pub open spec fn written(ev: Seq<Event>, st: Seq<u8>) -> bool {
    &&& struct_bytes(ev).len() <= st.len() <= u32::MAX
    &&& st.take(struct_bytes(ev).len() as int) == struct_bytes(ev)
    &&& strings_bytes(names(ev)).len() <= u32::MAX
}

proof fn lemma_subrange_of_take(s: Seq<u8>, n: int, a: int, b: int)
    requires
        0 <= a <= b <= n <= s.len(),
    ensures
        s.subrange(a, b) == s.take(n).subrange(a, b),
{
    assert(s.subrange(a, b) =~= s.take(n).subrange(a, b));
}

proof fn lemma_at_event(ev: Seq<Event>, st: Seq<u8>, k: int)
    requires
        written(ev, st),
        0 <= k < ev.len(),
    ensures
        0 <= event_offset(ev, k) <= event_offset(ev, k + 1) <= st.len(),
        st.subrange(event_offset(ev, k), event_offset(ev, k + 1)) == event_bytes(names(ev), ev[k]),
{
    lemma_event_placed(ev, k);
    let a = event_offset(ev, k);
    let b = event_offset(ev, k + 1);
    lemma_subrange_of_take(st, struct_bytes(ev).len() as int, a, b);
}

proof fn lemma_prop_written(ev: Seq<Event>, st: Seq<u8>, k: int, p: Prop)
    requires
        written(ev, st),
        0 <= k < ev.len(),
        ev[k] == Event::Write(p),
        no_nul(encode_utf8(p.name)),
    ensures
        prop_at(st, strings_bytes(names(ev)), event_offset(ev, k), p) == Some(
            event_offset(ev, k + 1),
        ),
{
    let tab = names(ev);
    lemma_at_event(ev, st, k);
    lemma_names_hold(ev, k);
    lemma_name_stands(tab, p.name);
    lemma_padded_len(p.value);
    let pos = event_offset(ev, k);
    let b = event_bytes(tab, ev[k]);
    assert(b.len() == 12 + padded(p.value).len());
    assert(event_offset(ev, k + 1) == pos + b.len());
    assert(st.subrange(pos, pos + 12 + padded(p.value).len()) == b);
    lemma_words_at(
        st,
        pos,
        FDT_PROP,
        p.value.len() as usize as u32,
        name_offset(tab, p.name) as usize as u32,
        p.value,
    );
}

proof fn lemma_props_written(ev: Seq<Event>, st: Seq<u8>, k: int, ps: Seq<Prop>)
    requires
        written(ev, st),
        0 <= k,
        k + ps.len() <= ev.len(),
        ev.subrange(k, k + ps.len()) == prop_events(ps),
        forall|i: int| 0 <= i < ps.len() ==> no_nul(encode_utf8(#[trigger] ps[i].name)),
    ensures
        props_at(st, strings_bytes(names(ev)), event_offset(ev, k), ps) == Some(
            event_offset(ev, k + ps.len()),
        ),
    decreases ps.len(),
{
    if ps.len() > 0 {
        assert(ev[k] == ev.subrange(k, k + ps.len())[0]);
        assert(no_nul(encode_utf8(ps[0].name)));
        lemma_prop_written(ev, st, k, ps[0]);
        let rest = ps.skip(1);
        assert(ev.subrange(k + 1, k + 1 + rest.len()) =~= prop_events(rest)) by {
            assert forall|j: int| 0 <= j < rest.len() implies ev.subrange(
                k + 1,
                k + 1 + rest.len(),
            )[j] == prop_events(rest)[j] by {
                assert(ev[k + 1 + j] == ev.subrange(k, k + ps.len())[j + 1]);
            }
        }
        assert forall|i: int| 0 <= i < rest.len() implies no_nul(
            encode_utf8(#[trigger] rest[i].name),
        ) by {
            assert(rest[i] == ps[i + 1]);
        }
        lemma_props_written(ev, st, k + 1, rest);
    }
}

proof fn lemma_node_written(ev: Seq<Event>, st: Seq<u8>, k: int, t: Node)
    requires
        written(ev, st),
        0 <= k,
        k + node_events(t).len() <= ev.len(),
        ev.subrange(k, k + node_events(t).len()) == node_events(t),
        plain(t),
    ensures
        node_at(st, strings_bytes(names(ev)), event_offset(ev, k), t) == Some(
            event_offset(ev, k + node_events(t).len()),
        ),
    decreases t, 0int,
{
    let all = node_events(t);
    let part = ev.subrange(k, k + all.len());
    let np = t.props.len() as int;
    let below = nodes_events(t.children);
    let nc = below.len() as int;
    // The begin token and the name.
    assert(ev[k] == part[0]);
    assert(part[0] == Event::Begin(t.name));
    lemma_at_event(ev, st, k);
    let pos = event_offset(ev, k);
    let name = encode_utf8(t.name).push(0);
    lemma_padded_len(name);
    let s = st.subrange(pos, event_offset(ev, k + 1));
    assert(s =~= be32(FDT_BEGIN_NODE) + padded(name));
    assert(st.subrange(pos, pos + 4) =~= s.subrange(0, 4));
    assert(s.subrange(0, 4) =~= be32(FDT_BEGIN_NODE));
    lemma_be_word_in(st, pos, FDT_BEGIN_NODE);
    let u = encode_utf8(t.name);
    assert(st.subrange(pos + 4, pos + 4 + u.len()) =~= s.subrange(4, 4 + u.len() as int));
    assert(s.subrange(4, 4 + u.len() as int) =~= u);
    assert(st[pos + 4 + u.len()] == s[4 + u.len() as int]);
    assert(text_at(st, pos + 4, t.name));
    // The properties.
    assert(ev.subrange(k + 1, k + 1 + np) =~= prop_events(t.props)) by {
        assert forall|j: int| 0 <= j < np implies ev.subrange(k + 1, k + 1 + np)[j] == prop_events(
            t.props,
        )[j] by {
            assert(ev[k + 1 + j] == part[1 + j]);
            assert(all[1 + j] == prop_events(t.props)[j]);
        }
    }
    lemma_props_written(ev, st, k + 1, t.props);
    // The children.
    assert(ev.subrange(k + 1 + np, k + 1 + np + nc) =~= below) by {
        assert forall|j: int| 0 <= j < nc implies ev.subrange(k + 1 + np, k + 1 + np + nc)[j]
            == below[j] by {
            assert(ev[k + 1 + np + j] == part[1 + np + j]);
            assert(all[1 + np + j] == below[j]);
        }
    }
    lemma_nodes_written(ev, st, k + 1 + np, t.children);
    // The end token.
    let last = k + 1 + np + nc;
    assert(ev[last] == part[1 + np + nc]);
    assert(all[1 + np + nc] == Event::End);
    lemma_at_event(ev, st, last);
    let e = event_offset(ev, last);
    assert(st.subrange(e, e + 4) == be32(FDT_END_NODE));
    lemma_be_word_in(st, e, FDT_END_NODE);
    assert(skip_nops(st, e) == e);
}

proof fn lemma_nodes_written(ev: Seq<Event>, st: Seq<u8>, k: int, ts: Seq<Node>)
    requires
        written(ev, st),
        0 <= k,
        k + nodes_events(ts).len() <= ev.len(),
        ev.subrange(k, k + nodes_events(ts).len()) == nodes_events(ts),
        forall|i: int| 0 <= i < ts.len() ==> plain(#[trigger] ts[i]),
    ensures
        nodes_at(st, strings_bytes(names(ev)), event_offset(ev, k), ts) == Some(
            event_offset(ev, k + nodes_events(ts).len()),
        ),
    decreases ts, ts.len(),
{
    if ts.len() > 0 {
        let first = node_events(ts[0]);
        let rest = ts.subrange(1, ts.len() as int);
        let after = nodes_events(rest);
        let part = ev.subrange(k, k + nodes_events(ts).len());
        let n = first.len() as int;
        assert(part =~= first + after);
        assert(ev.subrange(k, k + n) =~= part.subrange(0, n));
        assert(part.subrange(0, n) =~= first);
        assert(ev.subrange(k + n, k + n + after.len()) =~= part.subrange(n, n + after.len()));
        assert(part.subrange(n, n + after.len()) =~= after);
        lemma_node_written(ev, st, k, ts[0]);
        assert forall|i: int| 0 <= i < rest.len() implies plain(#[trigger] rest[i]) by {
            assert(rest[i] == ts[i + 1]);
        }
        lemma_nodes_written(ev, st, k + n, rest);
    }
}

/// Each number stands at its place in the bytes of a list.
proof fn lemma_be32_list(ws: Seq<u32>, i: int)
    requires
        0 <= i < ws.len(),
    ensures
        be32_list(ws).len() == 4 * ws.len(),
        be32_list(ws).subrange(4 * i, 4 * i + 4) == be32(ws[i]),
    decreases ws.len(),
{
    let pre = ws.drop_last();
    let n = pre.len() as int;
    if n > 0 {
        lemma_be32_list(pre, if i < n { i } else { 0 });
    } else {
        assert(be32_list(pre) =~= Seq::<u8>::empty());
    }
    if i < n {
        assert(be32_list(ws).subrange(4 * i, 4 * i + 4) =~= be32_list(pre).subrange(
            4 * i,
            4 * i + 4,
        ));
    } else {
        assert(be32_list(ws).subrange(4 * i, 4 * i + 4) =~= be32(ws[i]));
    }
}

proof fn lemma_header_word(ev: Seq<Event>, i: int)
    requires
        0 <= i < 10,
    ensures
        be32_list(header_words(ev)).len() == 40,
        be_word(blob(ev), 4 * i) == header_words(ev)[i],
{
    let h = be32_list(header_words(ev));
    lemma_be32_list(header_words(ev), i);
    assert(blob(ev).subrange(4 * i, 4 * i + 4) =~= h.subrange(4 * i, 4 * i + 4));
    lemma_be_word_in(blob(ev), 4 * i, header_words(ev)[i]);
}

/// The header of a blob tells where its blocks are.
pub proof fn lemma_blob_blocks(ev: Seq<Event>)
    requires
        blob_len(ev) <= u32::MAX,
    ensures
        blob(ev).len() == blob_len(ev),
        header_fault(blob(ev)) is None,
        struct_inside(blob(ev)),
        strings_inside(blob(ev)),
        struct_block(blob(ev)) == struct_bytes(ev) + be32(FDT_END),
        strings_block(blob(ev)) == strings_bytes(names(ev)),
{
    let b = blob(ev);
    let structs = struct_bytes(ev).len() + 4;
    let strings = strings_bytes(names(ev)).len();
    lemma_header_word(ev, 0);
    lemma_header_word(ev, 1);
    lemma_header_word(ev, 2);
    lemma_header_word(ev, 3);
    lemma_header_word(ev, 8);
    lemma_header_word(ev, 9);
    assert(struct_block(b) =~= struct_bytes(ev) + be32(FDT_END));
    assert(strings_block(b) =~= strings_bytes(names(ev)));
}

/// A tree that was written is in the blob: reading gives back what was
/// written.
pub proof fn lemma_blob_holds_tree(t: Node)
    requires
        plain(t),
        blob_len(node_events(t)) <= u32::MAX,
    ensures
        tree_in(blob(node_events(t)), t),
        whole_in(blob(node_events(t)), t),
{
    let ev = node_events(t);
    let st = struct_bytes(ev) + be32(FDT_END);
    lemma_blob_blocks(ev);
    assert(st.take(struct_bytes(ev).len() as int) =~= struct_bytes(ev));
    assert(ev.subrange(0, ev.len() as int) =~= ev);
    lemma_node_written(ev, st, 0, t);
    assert(ev.take(0) =~= Seq::<Event>::empty());
    assert(event_offset(ev, 0) == 0);
    assert(skip_nops(st, 0) == 0);
    lemma_node_as_root(st, strings_block(blob(ev)), 0, t);
}

} // verus!
