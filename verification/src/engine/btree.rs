use crate::codec::{push_bytes, push_u16, push_u32, push_u64, push_u8, read_u16_at, read_u32_at, read_u64_at, copy_range};
use crate::engine::buffer_pool::{lemma_content_sound, BufferPool};
use crate::engine::key::{IndexKey, KeyOrder, KeyView, key_bytes, key_encodable, key_lt, lemma_key_order, lemma_key_roundtrip, parse_key};
use crate::engine::page::{zero_body, Page, PageHeader, PageType, BTREE_NODE_HEADER_SIZE, PAGE_BODY_SIZE};
use crate::error::{DbError, ErrorKind};
use vstd::bytes::*;
use vstd::prelude::*;

verus! {

/// A node holds at most this many keys before it is split.
pub const MAX_KEYS_PER_NODE: usize = 100;

/// The model of a node of the on-disk B-tree.
///
/// A leaf holds a value for each key; an inner node holds a child page for
/// each key and one more after them.
pub struct NodeView {
    pub is_leaf: bool,
    pub parent: u32,
    pub keys: Seq<KeyView>,
    pub values: Seq<u64>,
    pub children: Seq<u32>,
}

/// The `u16` at `off`.
pub open spec fn u16_at(body: Seq<u8>, off: int) -> u16 {
    spec_u16_from_le_bytes(body.subrange(off, off + 2))
}

/// The `u32` at `off`.
pub open spec fn u32_at(body: Seq<u8>, off: int) -> u32 {
    spec_u32_from_le_bytes(body.subrange(off, off + 4))
}

/// The `u64` at `off`.
pub open spec fn u64_at(body: Seq<u8>, off: int) -> u64 {
    spec_u64_from_le_bytes(body.subrange(off, off + 8))
}

/// One entry of a node at `off`: the `u16` length of the key's bytes, the
/// key's bytes, then a `u64` value (in a leaf) or a `u32` child page id (in
/// an inner node). Gives the key, the value or child, and where the entry
/// ends.
pub open spec fn parse_entry(body: Seq<u8>, off: int, is_leaf: bool) -> Option<(KeyView, u64, int)> {
    if off + 2 > body.len() {
        None
    } else {
        let ks = off + 2;
        let ke = ks + u16_at(body, off);
        if ke > body.len() {
            None
        } else {
            match parse_key(body.subrange(ks, ke)) {
                Err(_) => None,
                Ok(k) => if is_leaf {
                    if ke + 8 > body.len() {
                        None
                    } else {
                        Some((k, u64_at(body, ke), ke + 8))
                    }
                } else {
                    if ke + 4 > body.len() {
                        None
                    } else {
                        Some((k, u32_at(body, ke) as u64, ke + 4))
                    }
                },
            }
        }
    }
}

/// The first `n` entries of a node, after its header: their keys, their
/// values or children, and where they end.
pub open spec fn parse_entries(body: Seq<u8>, n: nat, is_leaf: bool) -> Option<(Seq<KeyView>, Seq<u64>, int)>
    decreases n,
{
    if n == 0 {
        Some((Seq::empty(), Seq::empty(), BTREE_NODE_HEADER_SIZE as int))
    } else {
        match parse_entries(body, (n - 1) as nat, is_leaf) {
            None => None,
            Some((ks, vs, off)) => match parse_entry(body, off, is_leaf) {
                None => None,
                Some((k, v, end)) => Some((ks.push(k), vs.push(v), end)),
            },
        }
    }
}

/// Child page ids from the slots of an inner node's entries.
pub open spec fn as_children(slots: Seq<u64>) -> Seq<u32> {
    slots.map_values(|v: u64| v as u32)
}

/// The node a page body holds: a byte that is 1 for a leaf, the `u16`
/// count of keys, the `u32` parent page id, the entries, and for an inner
/// node the `u32` id of its last child. Anything that does not fit in the
/// body is corruption.
pub open spec fn parse_node(body: Seq<u8>) -> Option<NodeView> {
    if body.len() < BTREE_NODE_HEADER_SIZE {
        None
    } else {
        let is_leaf = body[0] == 1;
        match parse_entries(body, u16_at(body, 1) as nat, is_leaf) {
            None => None,
            Some((ks, vs, off)) => if is_leaf {
                Some(
                    NodeView {
                        is_leaf,
                        parent: u32_at(body, 3),
                        keys: ks,
                        values: vs,
                        children: Seq::empty(),
                    },
                )
            } else if off + 4 > body.len() {
                None
            } else {
                Some(
                    NodeView {
                        is_leaf,
                        parent: u32_at(body, 3),
                        keys: ks,
                        values: Seq::empty(),
                        children: as_children(vs).push(u32_at(body, off)),
                    },
                )
            },
        }
    }
}

/// The slot written after the key of entry `i`: the value in a leaf, the
/// child in an inner node.
pub open spec fn slot_bytes(node: NodeView, i: int) -> Seq<u8> {
    if node.is_leaf {
        spec_u64_to_le_bytes(node.values[i])
    } else {
        spec_u32_to_le_bytes(node.children[i])
    }
}

/// The bytes of entry `i` of a node.
pub open spec fn entry_bytes(node: NodeView, i: int) -> Seq<u8> {
    spec_u16_to_le_bytes(key_bytes(node.keys[i]).len() as u16) + key_bytes(node.keys[i]) + slot_bytes(
        node,
        i,
    )
}

/// The bytes of the first `n` entries of a node.
pub open spec fn entries_bytes(node: NodeView, n: nat) -> Seq<u8>
    decreases n,
{
    if n == 0 {
        Seq::empty()
    } else {
        entries_bytes(node, (n - 1) as nat) + entry_bytes(node, n - 1)
    }
}

/// The last child of an inner node, or `u32::MAX` where it has none.
pub open spec fn last_child(node: NodeView) -> u32 {
    if node.children.len() > 0 {
        node.children.last()
    } else {
        u32::MAX
    }
}

/// The bytes a node is written as, before the zeros that fill the rest of
/// the page body (see [`parse_node`]).
pub open spec fn node_image(node: NodeView) -> Seq<u8> {
    seq![
        if node.is_leaf {
            1u8
        } else {
            0u8
        },
    ] + spec_u16_to_le_bytes(node.keys.len() as u16) + spec_u32_to_le_bytes(node.parent)
        + entries_bytes(node, node.keys.len()) + if node.is_leaf {
        Seq::empty()
    } else {
        spec_u32_to_le_bytes(last_child(node))
    }
}

/// The page body a node is written as.
pub open spec fn node_body(node: NodeView) -> Seq<u8> {
    node_image(node) + Seq::new((PAGE_BODY_SIZE - node_image(node).len()) as nat, |i: int| 0u8)
}

/// Whether a node can be written: a count of keys and key lengths that fit
/// in a `u16`, keys that can be written, a value (leaf) or child (inner
/// node) for every key, and an image that fits in a page body.
pub open spec fn node_encodable(node: NodeView) -> bool {
    &&& node.keys.len() <= u16::MAX
    &&& forall|i: int|
        0 <= i < node.keys.len() ==> key_encodable(#[trigger] node.keys[i]) && key_bytes(
            node.keys[i],
        ).len() <= u16::MAX
    &&& if node.is_leaf {
        node.values.len() >= node.keys.len()
    } else {
        node.children.len() >= node.keys.len()
    }
    &&& node_image(node).len() <= PAGE_BODY_SIZE
}

/// A node in the shape that reading gives: a leaf with one value per key
/// and no children, an inner node with one child more than keys and no
/// values.
pub open spec fn well_shaped(node: NodeView) -> bool {
    if node.is_leaf {
        node.values.len() == node.keys.len() && node.children.len() == 0
    } else {
        node.children.len() == node.keys.len() + 1 && node.values.len() == 0
    }
}

/// A window of bytes that equals `a + b` splits into a window equal to
/// `a` and one equal to `b`.
proof fn lemma_window(body: Seq<u8>, off: int, a: Seq<u8>, b: Seq<u8>)
    requires
        0 <= off,
        off + a.len() + b.len() <= body.len(),
        body.subrange(off, off + a.len() + b.len()) == a + b,
    ensures
        body.subrange(off, off + a.len()) == a,
        body.subrange(off + a.len(), off + a.len() + b.len()) == b,
{
    let w = body.subrange(off, off + a.len() + b.len());
    assert forall|i: int| 0 <= i < a.len() implies body.subrange(off, off + a.len())[i] == a[i] by {
        assert(w[i] == (a + b)[i]);
    }
    assert forall|i: int| 0 <= i < b.len() implies body.subrange(
        off + a.len(),
        off + a.len() + b.len(),
    )[i] == b[i] by {
        assert(w[a.len() + i] == (a + b)[a.len() + i]);
    }
    assert(body.subrange(off, off + a.len()) =~= a);
    assert(body.subrange(off + a.len(), off + a.len() + b.len()) =~= b);
}

/// The bytes of the first `i` entries begin the bytes of the first `n`.
proof fn lemma_entries_prefix(node: NodeView, i: nat, n: nat)
    requires
        i <= n,
    ensures
        entries_bytes(node, i).len() <= entries_bytes(node, n).len(),
        entries_bytes(node, n).subrange(0, entries_bytes(node, i).len() as int) == entries_bytes(node, i),
    decreases n,
{
    if i == n {
        assert(entries_bytes(node, n).subrange(0, entries_bytes(node, n).len() as int) =~= entries_bytes(node, n));
    } else {
        lemma_entries_prefix(node, i, (n - 1) as nat);
        let p = entries_bytes(node, (n - 1) as nat);
        let q = entries_bytes(node, n);
        assert(q == p + entry_bytes(node, n - 1));
        assert(q.subrange(0, entries_bytes(node, i).len() as int) =~= p.subrange(0, entries_bytes(node, i).len() as int));
    }
}

/// The slot of entry `i` as the entry stores it.
pub open spec fn slot_of(node: NodeView, i: int) -> u64 {
    if node.is_leaf {
        node.values[i]
    } else {
        node.children[i] as u64
    }
}

/// Reading back the entries of a written node gives its keys and slots.
proof fn lemma_entries_roundtrip(node: NodeView, body: Seq<u8>, i: nat)
    requires
        node_encodable(node),
        i <= node.keys.len(),
        BTREE_NODE_HEADER_SIZE + entries_bytes(node, node.keys.len()).len() <= body.len(),
        body.subrange(
            BTREE_NODE_HEADER_SIZE as int,
            BTREE_NODE_HEADER_SIZE + entries_bytes(node, node.keys.len()).len(),
        ) == entries_bytes(node, node.keys.len()),
    ensures
        parse_entries(body, i, node.is_leaf) == Some(
            (
                node.keys.subrange(0, i as int),
                Seq::new(i, |j: int| slot_of(node, j)),
                BTREE_NODE_HEADER_SIZE + entries_bytes(node, i).len(),
            ),
        ),
    decreases i,
{
    let h = BTREE_NODE_HEADER_SIZE as int;
    let n = node.keys.len();
    if i == 0 {
        assert(node.keys.subrange(0, 0) =~= Seq::<KeyView>::empty());
        assert(Seq::new(0, |j: int| slot_of(node, j)) =~= Seq::<u64>::empty());
    } else {
        let k = (i - 1) as nat;
        lemma_entries_roundtrip(node, body, k);
        lemma_entries_prefix(node, i, n as nat);
        let all = entries_bytes(node, n as nat);
        let pre = entries_bytes(node, k);
        let e = entry_bytes(node, k as int);
        assert(entries_bytes(node, i) == pre + e);
        // the window of the first i entries inside the body
        assert(body.subrange(h, h + pre.len() + e.len()) == pre + e) by {
            assert forall|j: int| 0 <= j < pre.len() + e.len() implies body.subrange(h, h + pre.len() + e.len())[j]
                == (pre + e)[j] by {
                assert(body.subrange(h, h + all.len())[j] == all[j]);
                assert(all.subrange(0, (pre + e).len() as int)[j] == all[j]);
            }
            assert(body.subrange(h, h + pre.len() + e.len()) =~= pre + e);
        }
        lemma_window(body, h, pre, e);
        let off = h + pre.len();
        let kb = key_bytes(node.keys[k as int]);
        let lb = spec_u16_to_le_bytes(kb.len() as u16);
        let sb = slot_bytes(node, k as int);
        assert(e == lb + kb + sb);
        lemma_auto_spec_u16_to_from_le_bytes();
        lemma_auto_spec_u32_to_from_le_bytes();
        lemma_auto_spec_u64_to_from_le_bytes();
        assert(lb.len() == 2);
        lemma_window(body, off, lb + kb, sb);
        lemma_window(body, off, lb, kb);
        assert(node_encodable(node) ==> key_encodable(node.keys[k as int]) && kb.len() <= u16::MAX);
        assert(u16_at(body, off) == kb.len());
        lemma_key_roundtrip(node.keys[k as int], Seq::empty());
        assert(kb + Seq::<u8>::empty() =~= kb);
        let ke = off + 2 + kb.len();
        assert(body.subrange(off + 2, ke) == kb);
        if node.is_leaf {
            assert(sb.len() == 8);
            assert(u64_at(body, ke) == node.values[k as int]);
        } else {
            assert(sb.len() == 4);
            assert(u32_at(body, ke) == node.children[k as int]);
        }
        assert(node.keys.subrange(0, i as int) =~= node.keys.subrange(0, k as int).push(node.keys[k as int]));
        assert(Seq::new(i, |j: int| slot_of(node, j)) =~= Seq::new(k, |j: int| slot_of(node, j)).push(slot_of(node, k as int)));
    }
}

/// What reading back a written node gives: the values (leaf) or children
/// (inner node) of its keys, and for an inner node its last child after
/// them.
pub open spec fn normalized(node: NodeView) -> NodeView {
    let n = node.keys.len() as int;
    if node.is_leaf {
        NodeView { values: node.values.subrange(0, n), children: Seq::empty(), ..node }
    } else {
        NodeView {
            values: Seq::empty(),
            children: node.children.subrange(0, n).push(last_child(node)),
            ..node
        }
    }
}

/// A node in the shape that reading gives is its own normal form.
pub proof fn lemma_normalized(node: NodeView)
    requires
        well_shaped(node),
    ensures
        normalized(node) == node,
{
    let n = node.keys.len() as int;
    if node.is_leaf {
        assert(node.values.subrange(0, n) =~= node.values);
        assert(node.children =~= Seq::<u32>::empty());
    } else {
        assert(node.children.subrange(0, n).push(last_child(node)) =~= node.children);
        assert(node.values =~= Seq::<u64>::empty());
    }
}

/// Reading back a written node gives its normal form (see [`normalized`]);
/// a node in the shape that reading gives comes back as it was.
pub proof fn lemma_node_roundtrip(node: NodeView)
    requires
        node_encodable(node),
    ensures
        node_body(node).len() == PAGE_BODY_SIZE,
        parse_node(node_body(node)) == Some(normalized(node)),
        well_shaped(node) ==> parse_node(node_body(node)) == Some(node),
{
    let body = node_body(node);
    let img = node_image(node);
    let n = node.keys.len();
    let e = entries_bytes(node, n as nat);
    let lb = seq![if node.is_leaf { 1u8 } else { 0u8 }];
    let cb = spec_u16_to_le_bytes(n as u16);
    let pb = spec_u32_to_le_bytes(node.parent);
    let tail: Seq<u8> = if node.is_leaf { Seq::empty() } else { spec_u32_to_le_bytes(last_child(node)) };
    lemma_auto_spec_u16_to_from_le_bytes();
    lemma_auto_spec_u32_to_from_le_bytes();
    assert(img == lb + cb + pb + e + tail);
    assert(body.len() == PAGE_BODY_SIZE);
    assert(body.subrange(0, img.len() as int) =~= img);
    lemma_window(body, 0, lb + cb + pb + e, tail);
    lemma_window(body, 0, lb + cb + pb, e);
    lemma_window(body, 0, lb + cb, pb);
    lemma_window(body, 0, lb, cb);
    assert(body[0] == body.subrange(0, 1)[0]);
    assert(u16_at(body, 1) == n);
    assert(u32_at(body, 3) == node.parent);
    lemma_entries_roundtrip(node, body, n as nat);
    assert(node.keys.subrange(0, n as int) =~= node.keys);
    let slots = Seq::new(n as nat, |j: int| slot_of(node, j));
    assert((body[0] == 1) == node.is_leaf);
    assert(parse_entries(body, u16_at(body, 1) as nat, node.is_leaf) == Some((node.keys, slots, 7 + e.len() as int)));
    if node.is_leaf {
        assert(slots =~= node.values.subrange(0, n as int));
    } else {
        let off: int = 7 + e.len() as int;
        assert(u32_at(body, off) == last_child(node));
        assert(as_children(slots) =~= node.children.subrange(0, n as int));
    }
    if well_shaped(node) {
        lemma_normalized(node);
    }
}

/// A node read from its page.
#[derive(Debug)]
struct Node {
    page_id: u32,
    is_leaf: bool,
    parent_page_id: u32,
    keys: Vec<IndexKey>,
    values: Vec<u64>,
    children: Vec<u32>,
}

pub open spec fn key_views(keys: Seq<IndexKey>) -> Seq<KeyView> {
    keys.map_values(|k: IndexKey| k@)
}

impl View for Node {
    type V = NodeView;

    closed spec fn view(&self) -> NodeView {
        NodeView {
            is_leaf: self.is_leaf,
            parent: self.parent_page_id,
            keys: key_views(self.keys@),
            values: self.values@,
            children: self.children@,
        }
    }
}

fn corrupt(msg: &str) -> (r: DbError)
    ensures
        r.kind() == ErrorKind::Corruption,
        r matches DbError::Corruption(m) && m@ == msg@,
{
    DbError::corruption(msg)
}

fn invalid(msg: &str) -> (r: DbError)
    ensures
        r.kind() == ErrorKind::InvalidOperation,
{
    DbError::invalid_operation(msg)
}

proof fn lemma_entries_fail(body: Seq<u8>, i: nat, n: nat, is_leaf: bool)
    requires
        i <= n,
        parse_entries(body, i, is_leaf) is None,
    ensures
        parse_entries(body, n, is_leaf) is None,
    decreases n,
{
    if i < n {
        lemma_entries_fail(body, i, (n - 1) as nat, is_leaf);
    }
}

/// Reads one entry at `off` (see [`parse_entry`]).
fn decode_entry(body: &[u8], off: usize, is_leaf: bool) -> (r: Option<(IndexKey, u64, usize)>)
    requires
        body@.len() <= PAGE_BODY_SIZE,
    ensures
        match parse_entry(body@, off as int, is_leaf) {
            Some((k, v, end)) => r matches Some((x, y, e)) && x@ == k && y == v && e == end,
            None => r is None,
        },
{
    let len = body.len();
    if off > len || len - off < 2 {
        return None;
    }
    let kl = read_u16_at(body, off) as usize;
    let ks = off + 2;
    if kl > len - ks {
        return None;
    }
    let ke = ks + kl;
    let key = match IndexKey::from_bytes(&body[ks..ke]) {
        Ok(k) => k,
        Err(_) => return None,
    };
    if is_leaf {
        if len - ke < 8 {
            return None;
        }
        let v = read_u64_at(body, ke);
        Some((key, v, ke + 8))
    } else {
        if len - ke < 4 {
            return None;
        }
        let c = read_u32_at(body, ke);
        Some((key, c as u64, ke + 4))
    }
}

/// Reads the node a page body holds (see [`parse_node`]); a body that does
/// not hold one is corruption.
fn decode_node(page_id: u32, body: &[u8]) -> (r: Result<Node, DbError>)
    requires
        body@.len() <= PAGE_BODY_SIZE,
    ensures
        match parse_node(body@) {
            Some(n) => r matches Ok(x) && x@ == n && x.page_id == page_id,
            None => r matches Err(e) && e.kind() == ErrorKind::Corruption,
        },
{
    if body.len() < BTREE_NODE_HEADER_SIZE {
        return Err(corrupt("missing node header"));
    }
    let is_leaf = body[0] == 1;
    let num_keys = read_u16_at(body, 1) as usize;
    let parent_page_id = read_u32_at(body, 3);
    let mut keys: Vec<IndexKey> = Vec::new();
    let mut values: Vec<u64> = Vec::new();
    let mut children: Vec<u32> = Vec::new();
    let mut off: usize = BTREE_NODE_HEADER_SIZE;
    let ghost mut slots: Seq<u64> = Seq::empty();
    let mut i: usize = 0;
    while i < num_keys
        invariant
            body@.len() <= PAGE_BODY_SIZE,
            i <= num_keys,
            num_keys == u16_at(body@, 1),
            is_leaf == (body@[0] == 1),
            parse_entries(body@, i as nat, is_leaf) == Some((key_views(keys@), slots, off as int)),
            is_leaf ==> values@ == slots && children@.len() == 0,
            !is_leaf ==> children@ == as_children(slots) && values@.len() == 0,
        decreases num_keys - i,
    {
        match decode_entry(body, off, is_leaf) {
            None => {
                proof {
                    lemma_entries_fail(body@, (i + 1) as nat, num_keys as nat, is_leaf);
                }
                return Err(corrupt("node entry runs past the page"));
            },
            Some((k, v, end)) => {
                let ghost before = keys@;
                let ghost kv = k@;
                proof {
                    slots = slots.push(v);
                }
                keys.push(k);
                if is_leaf {
                    values.push(v);
                } else {
                    children.push(v as u32);
                    assert(children@ =~= as_children(slots));
                }
                off = end;
                assert(key_views(keys@) =~= key_views(before).push(kv));
            },
        }
        i = i + 1;
    }
    if !is_leaf {
        if off > body.len() || body.len() - off < 4 {
            return Err(corrupt("missing last child"));
        }
        let last = read_u32_at(body, off);
        children.push(last);
        assert(children@ =~= as_children(slots).push(last));
        assert(values@ =~= Seq::<u64>::empty());
    } else {
        assert(children@ =~= Seq::<u32>::empty());
    }
    Ok(Node { page_id, is_leaf, parent_page_id, keys, values, children })
}

/// The page body a node is written as (see [`node_body`]); a node that
/// cannot be written (see [`node_encodable`]) is an invalid operation.
fn encode_node(node: &Node) -> (r: Result<Vec<u8>, DbError>)
    ensures
        r is Ok <==> node_encodable(node@),
        r matches Ok(b) ==> b@ == node_body(node@),
        r matches Err(e) ==> e.kind() == ErrorKind::InvalidOperation,
{
    let ghost nv = node@;
    let n = node.keys.len();
    if n > 0xffff {
        return Err(invalid("too many keys"));
    }
    let mut buf: Vec<u8> = Vec::new();
    push_u8(&mut buf, if node.is_leaf { 1 } else { 0 });
    push_u16(&mut buf, n as u16);
    push_u32(&mut buf, node.parent_page_id);
    let ghost head = buf@;
    assert(head.len() == 7) by {
        lemma_auto_spec_u16_to_from_le_bytes();
        lemma_auto_spec_u32_to_from_le_bytes();
    }
    let mut i: usize = 0;
    while i < n
        invariant
            nv == node@,
            n == nv.keys.len(),
            n <= u16::MAX,
            i <= n,
            head.len() == 7,
            buf@ == head + entries_bytes(nv, i as nat),
            buf@.len() <= PAGE_BODY_SIZE + 7 + 2 + 65535 + 8,
            forall|j: int|
                0 <= j < i ==> key_encodable(#[trigger] nv.keys[j]) && key_bytes(nv.keys[j]).len()
                    <= u16::MAX,
            nv.is_leaf ==> nv.values.len() >= i,
            !nv.is_leaf ==> nv.children.len() >= i,
        decreases n - i,
    {
        if buf.len() > PAGE_BODY_SIZE {
            proof {
                lemma_entries_prefix(nv, i as nat, n as nat);
                lemma_auto_spec_u16_to_from_le_bytes();
                lemma_auto_spec_u32_to_from_le_bytes();
                assert(node_image(nv).len() >= 7 + entries_bytes(nv, n as nat).len());
            }
            return Err(invalid("insufficient space"));
        }
        let kb = match node.keys[i].to_bytes() {
            Ok(b) => b,
            Err(e) => {
                return Err(e);
            },
        };
        assert(kb@ == key_bytes(nv.keys[i as int]));
        if kb.len() > 0xffff {
            return Err(invalid("key too long"));
        }
        let ghost prev = buf@;
        push_u16(&mut buf, kb.len() as u16);
        push_bytes(&mut buf, kb.as_slice());
        if node.is_leaf {
            if i >= node.values.len() {
                return Err(invalid("missing value"));
            }
            push_u64(&mut buf, node.values[i]);
        } else {
            if i >= node.children.len() {
                return Err(invalid("missing child"));
            }
            push_u32(&mut buf, node.children[i]);
        }
        proof {
            lemma_auto_spec_u16_to_from_le_bytes();
            lemma_auto_spec_u32_to_from_le_bytes();
            lemma_auto_spec_u64_to_from_le_bytes();
            assert(entries_bytes(nv, (i + 1) as nat) == entries_bytes(nv, i as nat) + entry_bytes(nv, i as int));
            assert(buf@ =~= head + entries_bytes(nv, (i + 1) as nat));
        }
        i = i + 1;
    }
    if !node.is_leaf {
        let last = if node.children.len() > 0 {
            node.children[node.children.len() - 1]
        } else {
            0xffff_ffffu32
        };
        push_u32(&mut buf, last);
    }
    assert(buf@ =~= node_image(nv));
    if buf.len() > PAGE_BODY_SIZE {
        return Err(invalid("insufficient space"));
    }
    let ghost img = buf@;
    while buf.len() < PAGE_BODY_SIZE
        invariant
            img.len() <= buf@.len() <= PAGE_BODY_SIZE,
            buf@.subrange(0, img.len() as int) == img,
            forall|j: int| img.len() <= j < buf@.len() ==> buf@[j] == 0u8,
        decreases PAGE_BODY_SIZE - buf@.len(),
    {
        buf.push(0);
        assert(buf@.subrange(0, img.len() as int) =~= img);
    }
    assert(buf@ =~= node_body(nv));
    Ok(buf)
}

/// The node a page holds, as the pool shows it.
pub open spec fn node_at(pool: BufferPool, id: u32) -> Option<NodeView> {
    match pool.content(id) {
        Some((_, body)) => parse_node(body),
        None => None,
    }
}

/// The header a page has once a node is written to it.
pub open spec fn index_header(h: PageHeader) -> PageHeader {
    PageHeader { page_type: PageType::Index, ..h }
}

/// The body of a fresh node: the leaf byte, no keys, no parent
/// (`u32::MAX`), and zeros.
pub open spec fn empty_node_body(is_leaf: bool) -> Seq<u8> {
    seq![
        if is_leaf {
            1u8
        } else {
            0u8
        },
    ] + spec_u16_to_le_bytes(0) + spec_u32_to_le_bytes(u32::MAX) + Seq::new(
        (PAGE_BODY_SIZE - 7) as nat,
        |i: int| 0u8,
    )
}

/// Fills `buf` with zeros up to the size of a page body.
fn pad_body(buf: &mut Vec<u8>)
    requires
        old(buf)@.len() <= PAGE_BODY_SIZE,
    ensures
        final(buf)@ == old(buf)@ + Seq::new((PAGE_BODY_SIZE - old(buf)@.len()) as nat, |i: int| 0u8),
{
    let ghost img = buf@;
    while buf.len() < PAGE_BODY_SIZE
        invariant
            img.len() <= buf@.len() <= PAGE_BODY_SIZE,
            buf@.subrange(0, img.len() as int) == img,
            forall|j: int| img.len() <= j < buf@.len() ==> buf@[j] == 0u8,
        decreases PAGE_BODY_SIZE - buf@.len(),
    {
        buf.push(0);
        assert(buf@.subrange(0, img.len() as int) =~= img);
    }
    assert(buf@ =~= img + Seq::new((PAGE_BODY_SIZE - img.len()) as nat, |i: int| 0u8));
}

/// Reads the node of a page. The content of every page is kept on a
/// coherent pool; a page that cannot be read, or that does not hold a node,
/// is an error.
fn load_node(pool: &mut BufferPool, page_id: u32) -> (r: Result<Node, DbError>)
    requires
        old(pool).wf(),
    ensures
        final(pool).wf(),
        final(pool).capacity_spec() == old(pool).capacity_spec(),
        final(pool).disk().len() == old(pool).disk().len(),
        old(pool).coherent() ==> final(pool).coherent() && forall|x: u32|
            #[trigger] final(pool).content(x) == old(pool).content(x),
        old(pool).idle() ==> final(pool).idle(),
        r matches Ok(n) ==> n.page_id == page_id && node_at(*old(pool), page_id) == Some(n@),
        old(pool).coherent() && node_at(*old(pool), page_id) is None ==> r is Err,
        r matches Err(e) ==> e.kind() == ErrorKind::InvalidOperation || e.kind() == ErrorKind::Corruption,
        old(pool).clock_spec() <= final(pool).clock_spec() <= old(pool).clock_spec() + 3,
        (old(pool).can_run(3) && node_at(*old(pool), page_id) is Some) ==> r is Ok,
        (old(pool).can_read(3) && node_at(*old(pool), page_id) is Some) ==> r is Ok,
        (r is Ok && old(pool).roomy()) ==> final(pool).roomy(),
{
    let page = pool.read_copy(page_id)?;
    decode_node(page_id, page.data.as_slice())
}

/// Writes a node to its page, as an index page. On a coherent pool only
/// that page's content changes, and only when the write succeeds; a node
/// that cannot be written (see [`node_encodable`]) is an invalid operation.
fn save_node(pool: &mut BufferPool, node: &Node) -> (r: Result<(), DbError>)
    requires
        old(pool).wf(),
    ensures
        final(pool).wf(),
        final(pool).capacity_spec() == old(pool).capacity_spec(),
        final(pool).disk().len() == old(pool).disk().len(),
        old(pool).coherent() ==> final(pool).coherent(),
        old(pool).idle() ==> final(pool).idle(),
        r is Ok ==> node_encodable(node@) && old(pool).content(node.page_id) is Some,
        (r is Ok && old(pool).coherent()) ==> forall|x: u32|
            #[trigger] final(pool).content(x) == if x == node.page_id {
                Some((index_header((old(pool).content(x)->0).0), node_body(node@)))
            } else {
                old(pool).content(x)
            },
        (r is Err && old(pool).coherent()) ==> forall|x: u32|
            #[trigger] final(pool).content(x) == old(pool).content(x),
        r matches Err(e) ==> e.kind() == ErrorKind::InvalidOperation || e.kind() == ErrorKind::Corruption,
        (old(pool).can_run(6) && node_encodable(node@) && old(pool).content(node.page_id) is Some) ==> r is Ok,
        old(pool).clock_spec() <= final(pool).clock_spec() <= old(pool).clock_spec() + 6,
{
    let ghost p0 = *pool;
    let body = encode_node(node)?;
    let mut page = pool.read_copy(node.page_id)?;
    proof {
        if p0.coherent() {
            lemma_content_sound(p0, node.page_id);
        }
        lemma_node_body_len(node@);
    }
    page.header.page_type = PageType::Index;
    page.data = body;
    pool.write_copy(page)
}

proof fn lemma_node_body_len(node: NodeView)
    requires
        node_encodable(node),
    ensures
        node_body(node).len() == PAGE_BODY_SIZE,
{
}

/// The body of a fresh node (see [`empty_node_body`]).
fn fresh_node_body(is_leaf: bool) -> (r: Vec<u8>)
    ensures
        r@ == empty_node_body(is_leaf),
        r@.len() == PAGE_BODY_SIZE,
{
    let mut buf: Vec<u8> = Vec::new();
    push_u8(&mut buf, if is_leaf { 1 } else { 0 });
    push_u16(&mut buf, 0);
    push_u32(&mut buf, 0xffff_ffff);
    proof {
        lemma_auto_spec_u16_to_from_le_bytes();
        lemma_auto_spec_u32_to_from_le_bytes();
    }
    pad_body(&mut buf);
    buf
}

/// Appends a fresh node page to the file (see [`empty_node_body`]). On a
/// coherent pool no other page changes.
fn allocate_node(pool: &mut BufferPool, is_leaf: bool) -> (r: Result<u32, DbError>)
    requires
        old(pool).wf(),
    ensures
        final(pool).wf(),
        final(pool).capacity_spec() == old(pool).capacity_spec(),
        final(pool).disk().len() >= old(pool).disk().len(),
        old(pool).coherent() ==> final(pool).coherent(),
        old(pool).idle() ==> final(pool).idle(),
        r matches Ok(id) ==> id == old(pool).disk().len(),
        (r is Ok && old(pool).coherent()) ==> forall|x: u32|
            #[trigger] final(pool).content(x) == if x == old(pool).disk().len() {
                Some((fresh_index_header(x), empty_node_body(is_leaf)))
            } else {
                old(pool).content(x)
            },
        (r is Err && old(pool).coherent()) ==> forall|x: u32|
            x < old(pool).disk().len() ==> #[trigger] final(pool).content(x) == old(pool).content(x),
        r matches Err(e) ==> e.kind() == ErrorKind::InvalidOperation || e.kind() == ErrorKind::Corruption,
        old(pool).clock_spec() <= final(pool).clock_spec() <= old(pool).clock_spec() + 8,
        (old(pool).can_run(8) && old(pool).disk().len() < u32::MAX) ==> r is Ok,
        r is Ok ==> final(pool).disk().len() == old(pool).disk().len() + 1,
{
    let ghost p0 = *pool;
    proof {
        if p0.idle() {
            p0.lemma_full_has_unpinned();
        }
    }
    let id = pool.allocate_page(PageType::Index)?;
    let ghost p1 = *pool;
    let mut page = match pool.read_copy(id) {
        Ok(p) => p,
        Err(e) => {
            return Err(e);
        },
    };
    proof {
        if p0.coherent() {
            lemma_content_sound(p1, id);
        }
    }
    page.header.page_type = PageType::Index;
    page.data = fresh_node_body(is_leaf);
    match pool.write_copy(page) {
        Ok(()) => Ok(id),
        Err(e) => Err(e),
    }
}

/// The header of a fresh index page.
pub open spec fn fresh_index_header(id: u32) -> PageHeader {
    PageHeader {
        page_id: id,
        page_type: PageType::Index,
        free_space_offset: crate::engine::page::INITIAL_FREE_SPACE_OFFSET,
        cell_count: 0,
        checksum: 0,
        flags: 0,
    }
}

/// The first position from `j` on whose key does not sort before `key`
/// (in sorted keys: where `key` is, or would go).
pub open spec fn lower_from(keys: Seq<KeyView>, key: KeyView, j: int) -> int
    decreases keys.len() - j,
{
    if j < 0 || j >= keys.len() {
        keys.len() as int
    } else if !key_lt(keys[j], key) {
        j
    } else {
        lower_from(keys, key, j + 1)
    }
}

/// The first position from `j` on whose key sorts after `key` (in sorted
/// keys: the number of keys not greater than `key`).
pub open spec fn upper_from(keys: Seq<KeyView>, key: KeyView, j: int) -> int
    decreases keys.len() - j,
{
    if j < 0 || j >= keys.len() {
        keys.len() as int
    } else if key_lt(key, keys[j]) {
        j
    } else {
        upper_from(keys, key, j + 1)
    }
}

/// The child of an inner node that a search for `key` goes down to.
pub open spec fn child_index(keys: Seq<KeyView>, key: KeyView) -> int {
    upper_from(keys, key, 0)
}

/// The value a leaf holds for `key`, if any.
pub open spec fn leaf_get(node: NodeView, key: KeyView) -> Option<u64> {
    let p = lower_from(node.keys, key, 0);
    if p < node.keys.len() && node.keys[p] == key && p < node.values.len() {
        Some(node.values[p])
    } else {
        None
    }
}

proof fn lemma_lower_from(keys: Seq<KeyView>, key: KeyView, j: int, p: int)
    requires
        0 <= j <= p <= keys.len(),
        forall|i: int| j <= i < p ==> key_lt(#[trigger] keys[i], key),
        p == keys.len() || !key_lt(keys[p], key),
    ensures
        lower_from(keys, key, j) == p,
    decreases p - j,
{
    if j < p {
        lemma_lower_from(keys, key, j + 1, p);
    }
}

proof fn lemma_upper_from(keys: Seq<KeyView>, key: KeyView, j: int, p: int)
    requires
        0 <= j <= p <= keys.len(),
        forall|i: int| j <= i < p ==> !key_lt(key, #[trigger] keys[i]),
        p == keys.len() || key_lt(key, keys[p]),
    ensures
        upper_from(keys, key, j) == p,
    decreases p - j,
{
    if j < p {
        lemma_upper_from(keys, key, j + 1, p);
    }
}

impl Node {
    /// The first position whose key does not sort before `key`.
    fn lower_bound(&self, key: &IndexKey) -> (r: usize)
        ensures
            r as int == lower_from(self@.keys, key@, 0),
            r <= self.keys@.len(),
            forall|i: int| 0 <= i < r ==> key_lt(#[trigger] self@.keys[i], key@),
    {
        let mut i: usize = 0;
        while i < self.keys.len()
            invariant
                i <= self.keys@.len(),
                forall|j: int| 0 <= j < i ==> key_lt(#[trigger] self@.keys[j], key@),
            decreases self.keys@.len() - i,
        {
            if !self.keys[i].less_than(key) {
                proof {
                    lemma_lower_from(self@.keys, key@, 0, i as int);
                }
                return i;
            }
            i = i + 1;
        }
        proof {
            lemma_lower_from(self@.keys, key@, 0, i as int);
        }
        i
    }

    /// The first position whose key sorts after `key`.
    fn upper_bound(&self, key: &IndexKey) -> (r: usize)
        ensures
            r as int == child_index(self@.keys, key@),
            r <= self.keys@.len(),
    {
        let mut i: usize = 0;
        while i < self.keys.len()
            invariant
                i <= self.keys@.len(),
                forall|j: int| 0 <= j < i ==> !key_lt(key@, #[trigger] self@.keys[j]),
            decreases self.keys@.len() - i,
        {
            if key.less_than(&self.keys[i]) {
                proof {
                    lemma_upper_from(self@.keys, key@, 0, i as int);
                }
                return i;
            }
            i = i + 1;
        }
        proof {
            lemma_upper_from(self@.keys, key@, 0, i as int);
        }
        i
    }
}

/// What a search for `key` from page `current` gives, going down at most
/// `fuel` more levels: the value of `key` in the leaf reached, `None` if the
/// leaf does not hold it, or a failure (`None` outside): a page that does not
/// hold a node, a missing child or value, or a walk deeper than the fuel.
pub open spec fn lookup_walk(pool: BufferPool, current: u32, key: KeyView, fuel: nat) -> Option<Option<u64>>
    decreases fuel,
{
    match node_at(pool, current) {
        None => None,
        Some(n) => if n.is_leaf {
            let p = lower_from(n.keys, key, 0);
            if p < n.keys.len() && n.keys[p] == key {
                if p < n.values.len() {
                    Some(Some(n.values[p]))
                } else {
                    None
                }
            } else {
                Some(None)
            }
        } else {
            let idx = child_index(n.keys, key);
            if idx >= n.children.len() || fuel == 0 {
                None
            } else {
                lookup_walk(pool, n.children[idx], key, (fuel - 1) as nat)
            }
        },
    }
}

/// From the inner node of page `from`, a search for `key` goes down to
/// page `to`.
pub open spec fn steps_to(pool: BufferPool, from: u32, key: KeyView, to: u32) -> bool {
    match node_at(pool, from) {
        Some(n) => !n.is_leaf && child_index(n.keys, key) < n.children.len() && n.children[child_index(
            n.keys,
            key,
        )] == to,
        None => false,
    }
}

/// Page `id` holds a leaf.
pub open spec fn leaf_at(pool: BufferPool, id: u32) -> bool {
    match node_at(pool, id) {
        Some(n) => n.is_leaf,
        None => false,
    }
}

/// `path` is the way a search for `key` goes from page `root` down to a
/// leaf.
pub open spec fn descends(pool: BufferPool, root: u32, key: KeyView, path: Seq<u32>) -> bool {
    &&& path.len() > 0
    &&& path[0] == root
    &&& forall|j: int| 0 <= j < path.len() - 1 ==> steps_to(pool, #[trigger] path[j], key, path[j + 1])
    &&& leaf_at(pool, path.last())
}

/// A search for `key` from page `root` ends in a leaf and gives `v` there.
pub open spec fn found(pool: BufferPool, root: u32, key: KeyView, v: Option<u64>) -> bool {
    exists|path: Seq<u32>|
        #[trigger] descends(pool, root, key, path) && leaf_get(node_at(pool, path.last())->0, key) == v
}

/// A search for `key` from `root` finds `value`.
pub open spec fn finds(pool: BufferPool, root: u32, key: KeyView, value: u64) -> bool {
    found(pool, root, key, Some(value))
}

/// A search goes one way: two paths from the same root for the same key
/// are the same path.
pub proof fn lemma_descent_unique(pool: BufferPool, root: u32, key: KeyView, a: Seq<u32>, b: Seq<u32>)
    requires
        descends(pool, root, key, a),
        descends(pool, root, key, b),
    ensures
        a == b,
{
    let m = if a.len() < b.len() { a.len() } else { b.len() };
    assert forall|j: int| 0 <= j < m implies a[j] == b[j] by {
        lemma_prefix_same(pool, root, key, a, b, j);
    }
    if a.len() < b.len() {
        let j = a.len() - 1;
        lemma_prefix_same(pool, root, key, a, b, j);
        assert(steps_to(pool, b[j], key, b[j + 1]));
    } else if b.len() < a.len() {
        let j = b.len() - 1;
        lemma_prefix_same(pool, root, key, a, b, j);
        assert(steps_to(pool, a[j], key, a[j + 1]));
    }
    assert(a =~= b);
}

proof fn lemma_prefix_same(pool: BufferPool, root: u32, key: KeyView, a: Seq<u32>, b: Seq<u32>, j: int)
    requires
        descends(pool, root, key, a),
        descends(pool, root, key, b),
        0 <= j < a.len(),
        j < b.len(),
    ensures
        a[j] == b[j],
    decreases j,
{
    if j > 0 {
        lemma_prefix_same(pool, root, key, a, b, j - 1);
        assert(steps_to(pool, a[j - 1], key, a[j]));
        assert(steps_to(pool, b[j - 1], key, b[j]));
    }
}

/// What a search gives is unique: where a search for `key` finds `value`,
/// whatever it gives is `Some(value)`.
pub proof fn lemma_found_unique(pool: BufferPool, root: u32, key: KeyView, v: Option<u64>, w: Option<u64>)
    requires
        found(pool, root, key, v),
        found(pool, root, key, w),
    ensures
        v == w,
{
    let a = choose|path: Seq<u32>|
        #[trigger] descends(pool, root, key, path) && leaf_get(node_at(pool, path.last())->0, key) == v;
    let b = choose|path: Seq<u32>|
        #[trigger] descends(pool, root, key, path) && leaf_get(node_at(pool, path.last())->0, key) == w;
    lemma_descent_unique(pool, root, key, a, b);
}

/// A B-tree of index keys to `u64` values whose nodes are index pages of
/// a buffer pool; the tree is known by the id of its root page.
#[derive(Debug, Clone, Copy, PartialEq, Eq, Structural)]
pub struct BTreeOnDisk {
    root_page_id: u32,
}

impl BTreeOnDisk {
    pub closed spec fn root(&self) -> u32 {
        self.root_page_id
    }

    /// A tree of one empty leaf, on a fresh page at the end of the file. On
    /// a coherent pool no other page changes, and a search for any key in
    /// the new tree finds nothing.
    pub fn create(pool: &mut BufferPool) -> (r: Result<Self, DbError>)
        requires
            old(pool).wf(),
        ensures
            final(pool).wf(),
            final(pool).capacity_spec() == old(pool).capacity_spec(),
            old(pool).coherent() ==> final(pool).coherent(),
            old(pool).idle() ==> final(pool).idle(),
            r matches Ok(t) ==> t.root() == old(pool).disk().len(),
            (r is Ok && old(pool).coherent()) ==> forall|x: u32|
                #[trigger] final(pool).content(x) == if x == old(pool).disk().len() {
                    Some((fresh_index_header(x), empty_node_body(true)))
                } else {
                    old(pool).content(x)
                },
            r matches Ok(t) ==> (old(pool).coherent() ==> forall|k: KeyView|
                #[trigger] found(*final(pool), t.root(), k, None)),
            r matches Ok(t) ==> (old(pool).coherent() ==> leaves_sane(*final(pool), t.root()) && small_tree(
                *final(pool),
                t.root(),
            )),
            r matches Ok(t) ==> (old(pool).coherent() ==> forall|k: KeyView, fuel: nat|
                #[trigger] lookup_walk(*final(pool), t.root(), k, fuel) == Some(None::<u64>)),
            r matches Err(e) ==> e.kind() == ErrorKind::InvalidOperation || e.kind() == ErrorKind::Corruption,
            (old(pool).can_run(8) && old(pool).disk().len() < u32::MAX) ==> r is Ok,
            r is Ok ==> final(pool).disk().len() == old(pool).disk().len() + 1,
            old(pool).clock_spec() <= final(pool).clock_spec() <= old(pool).clock_spec() + 8,
    {
        let ghost p0 = *pool;
        let id = allocate_node(pool, true)?;
        proof {
            if p0.coherent() {
                lemma_empty_leaf();
                assert forall|k: KeyView| #[trigger] found(*pool, id, k, None) by {
                    let path = seq![id];
                    assert(descends(*pool, id, k, path));
                }
                assert forall|k: KeyView, fuel: nat| #[trigger] lookup_walk(*pool, id, k, fuel) == Some(None::<u64>) by {
                    assert(node_at(*pool, id) is Some);
                }
                assert forall|k: KeyView, a: Seq<u32>| #[trigger] descends(*pool, id, k, a) implies keys_sorted(
                    (node_at(*pool, a.last())->0).keys,
                ) && (node_at(*pool, a.last())->0).values.len() == (node_at(*pool, a.last())->0).keys.len() by {
                    if a.len() > 1 {
                        assert(steps_to(*pool, a[0], k, a[1]));
                    }
                }
            }
        }
        Ok(BTreeOnDisk { root_page_id: id })
    }

    pub fn root_page_id(&self) -> (r: u32)
        ensures
            r == self.root(),
    {
        self.root_page_id
    }

    /// Searches the tree from its root for `key`: down the inner nodes, at
    /// each to the child after the keys not greater than `key`, to a leaf,
    /// where the value of `key` is looked up. On a coherent pool the content
    /// of every page is kept, and what is found is what the pages hold (see
    /// [`found`]). A page that cannot be read or does not hold a node, a
    /// missing child, or a walk longer than the file has pages, is an error.
    #[verifier::loop_isolation(false)]
    pub fn lookup_static(pool: &mut BufferPool, root_page_id: u32, key: &IndexKey) -> (r: Result<
        Option<u64>,
        DbError,
    >)
        requires
            old(pool).wf(),
        ensures
            final(pool).wf(),
            final(pool).capacity_spec() == old(pool).capacity_spec(),
            final(pool).disk().len() == old(pool).disk().len(),
            old(pool).coherent() ==> final(pool).coherent() && forall|x: u32|
                #[trigger] final(pool).content(x) == old(pool).content(x),
            old(pool).idle() ==> final(pool).idle(),
            r matches Ok(v) ==> (old(pool).coherent() ==> found(*old(pool), root_page_id, key@, v)),
            r matches Err(e) ==> e.kind() == ErrorKind::InvalidOperation || e.kind() == ErrorKind::Corruption,
            old(pool).clock_spec() <= final(pool).clock_spec() <= old(pool).clock_spec() + 3 * (old(
                pool,
            ).disk().len() + 1),
            old(pool).can_read(3 * (old(pool).disk().len() + 1) as int) ==> match lookup_walk(
                *old(pool),
                root_page_id,
                key@,
                old(pool).disk().len(),
            ) {
                None => r is Err,
                Some(v) => r == Ok::<Option<u64>, DbError>(v),
            },
    {
        let ghost p0 = *pool;
        let ghost total = p0.disk().len();
        let count = pool.page_count() as u64;
        let mut node = load_node(pool, root_page_id)?;
        let ghost mut path: Seq<u32> = seq![root_page_id];
        let mut steps: u64 = 0;
        loop
            invariant
                pool.wf(),
                pool.capacity_spec() == p0.capacity_spec(),
                pool.disk().len() == p0.disk().len(),
                p0.coherent() ==> pool.coherent() && forall|x: u32|
                    #[trigger] pool.content(x) == p0.content(x),
                p0.idle() ==> pool.idle(),
                p0.can_read(3 * (total + 1) as int) ==> pool.roomy(),
                steps <= count,
                count == total,
                p0.clock_spec() <= pool.clock_spec() <= p0.clock_spec() + 3 * (steps + 1),
                p0.can_read(3 * (total + 1) as int) ==> node_at(p0, node.page_id) == Some(node@)
                    && lookup_walk(p0, root_page_id, key@, total) == lookup_walk(
                    p0,
                    node.page_id,
                    key@,
                    (total - steps) as nat,
                ),
                path.len() > 0,
                path[0] == root_page_id,
                path.last() == node.page_id,
                p0.coherent() ==> node_at(p0, node.page_id) == Some(node@),
                p0.coherent() ==> forall|j: int|
                    0 <= j < path.len() - 1 ==> steps_to(p0, #[trigger] path[j], key@, path[j + 1]),
            decreases count - steps,
        {
            if node.is_leaf {
                let idx = node.lower_bound(key);
                if idx < node.keys.len() && node.keys[idx].compare(key) == KeyOrder::Equal {
                    if idx < node.values.len() {
                        proof {
                            if p0.coherent() {
                                assert(descends(p0, root_page_id, key@, path));
                            }
                        }
                        return Ok(Some(node.values[idx]));
                    }
                    return Err(corrupt("value missing at index"));
                }
                proof {
                    if p0.coherent() {
                        assert(descends(p0, root_page_id, key@, path));
                    }
                }
                return Ok(None);
            }
            let idx = node.upper_bound(key);
            if idx >= node.children.len() {
                return Err(corrupt("child page missing"));
            }
            let child = node.children[idx];
            if steps >= count {
                return Err(corrupt("index walk does not end"));
            }
            steps = steps + 1;
            let ghost prev = path;
            let ghost from = node.page_id;
            node = load_node(pool, child)?;
            proof {
                path = path.push(child);
                if p0.coherent() {
                    assert(steps_to(p0, from, key@, child));
                    assert forall|j: int| 0 <= j < path.len() - 1 implies steps_to(
                        p0,
                        #[trigger] path[j],
                        key@,
                        path[j + 1],
                    ) by {
                        if j < prev.len() - 1 {
                            assert(path[j] == prev[j] && path[j + 1] == prev[j + 1]);
                        }
                    }
                }
            }
        }
    }
}

/// A fresh leaf holds no key.
proof fn lemma_empty_leaf()
    ensures
        parse_node(empty_node_body(true)) matches Some(n) && n.is_leaf && n.keys.len() == 0,
{
    let b = empty_node_body(true);
    lemma_auto_spec_u16_to_from_le_bytes();
    lemma_auto_spec_u32_to_from_le_bytes();
    assert(b.subrange(1, 3) =~= spec_u16_to_le_bytes(0));
    assert(b[0] == 1u8);
}

proof fn lemma_entries_len(body: Seq<u8>, n: nat, is_leaf: bool)
    ensures
        parse_entries(body, n, is_leaf) matches Some((ks, vs, _)) ==> ks.len() == n && vs.len() == n,
    decreases n,
{
    if n > 0 {
        lemma_entries_len(body, (n - 1) as nat, is_leaf);
    }
}

/// Every node read from a page is in the shape that reading gives.
pub proof fn lemma_parsed_shape(body: Seq<u8>)
    ensures
        parse_node(body) matches Some(n) ==> well_shaped(n),
{
    if body.len() >= BTREE_NODE_HEADER_SIZE {
        lemma_entries_len(body, u16_at(body, 1) as nat, body[0] == 1);
    }
}

/// A fresh node reads back as a node of the given kind with no keys.
proof fn lemma_empty_node(is_leaf: bool)
    ensures
        parse_node(empty_node_body(is_leaf)) matches Some(n) && n.is_leaf == is_leaf && n.keys.len() == 0
            && well_shaped(n),
{
    let b = empty_node_body(is_leaf);
    lemma_auto_spec_u16_to_from_le_bytes();
    lemma_auto_spec_u32_to_from_le_bytes();
    assert(b.subrange(1, 3) =~= spec_u16_to_le_bytes(0));
    assert(b[0] == (if is_leaf { 1u8 } else { 0u8 }));
    lemma_parsed_shape(b);
}

/// The left part of a split node: a leaf keeps the keys before the middle
/// one, an inner node keeps the keys up to and with the middle one and as
/// many children.
pub open spec fn left_half(c: NodeView) -> NodeView {
    let mid = (c.keys.len() / 2) as int;
    if c.is_leaf {
        NodeView { keys: c.keys.subrange(0, mid), values: c.values.subrange(0, mid), ..c }
    } else {
        NodeView { keys: c.keys.subrange(0, mid + 1), children: c.children.subrange(0, mid + 1), ..c }
    }
}

/// The right part of a split node, as a node under `parent`: a leaf takes
/// the keys from the middle one on with their values, an inner node the keys
/// after the middle one and the children after the first `mid + 1`.
pub open spec fn right_half(c: NodeView, parent: u32) -> NodeView {
    let mid = (c.keys.len() / 2) as int;
    if c.is_leaf {
        NodeView {
            is_leaf: true,
            parent,
            keys: c.keys.subrange(mid, c.keys.len() as int),
            values: c.values.subrange(mid, c.values.len() as int),
            children: Seq::empty(),
        }
    } else {
        NodeView {
            is_leaf: false,
            parent,
            keys: c.keys.subrange(mid + 1, c.keys.len() as int),
            values: Seq::empty(),
            children: c.children.subrange(mid + 1, c.children.len() as int),
        }
    }
}

/// An inner node with the key `k` put at `idx` and the child `new_child`
/// right after the child at `idx`.
pub open spec fn with_separator(p: NodeView, idx: int, k: KeyView, new_child: u32) -> NodeView {
    NodeView { keys: p.keys.insert(idx, k), children: p.children.insert(idx + 1, new_child), ..p }
}

/// The header a page has, as the pool shows it.
pub open spec fn header_at(pool: BufferPool, id: u32) -> PageHeader {
    (pool.content(id)->0).0
}

/// The pages after the child at `idx` of the inner node of page `parent`
/// is split: the child keeps its left half, a fresh page at the end of the
/// file (`fresh`) takes the right half, and the parent takes the child's
/// middle key and the fresh page.
pub open spec fn split_content(old: BufferPool, new: BufferPool, parent: u32, idx: int, fresh: u32) -> bool {
    let p = node_at(old, parent)->0;
    let cid = p.children[idx];
    let c = node_at(old, cid)->0;
    let mid = (c.keys.len() / 2) as int;
    &&& node_at(old, parent) is Some
    &&& 0 <= idx < p.children.len()
    &&& node_at(old, cid) is Some
    &&& 0 <= mid < c.keys.len()
    &&& fresh == old.disk().len()
    &&& forall|x: u32|
        #[trigger] new.content(x) == if x == parent {
            Some((index_header(header_at(old, x)), node_body(with_separator(p, idx, c.keys[mid], fresh))))
        } else if x == fresh {
            Some((fresh_index_header(x), node_body(right_half(c, parent))))
        } else if x == cid {
            Some((index_header(header_at(old, x)), node_body(left_half(c))))
        } else {
            old.content(x)
        }
    &&& node_at(new, parent) == Some(with_separator(p, idx, c.keys[mid], fresh))
    &&& node_at(new, fresh) == Some(normalized(right_half(c, parent)))
    &&& cid != parent ==> node_at(new, cid) == Some(normalized(left_half(c)))
}

/// Splits the child at `child_idx` of the inner node of page `parent_page_id`
/// (see [`split_content`]). A child index past the children, a child with no
/// keys, or a page that cannot be read, written or added, is an error.
#[verifier::rlimit(60)]
fn split_child(pool: &mut BufferPool, parent_page_id: u32, child_idx: usize) -> (r: Result<u32, DbError>)
    requires
        old(pool).wf(),
    ensures
        final(pool).wf(),
        final(pool).capacity_spec() == old(pool).capacity_spec(),
        final(pool).disk().len() >= old(pool).disk().len(),
        old(pool).coherent() ==> final(pool).coherent(),
        old(pool).idle() ==> final(pool).idle(),
        r matches Ok(fresh) ==> (old(pool).coherent() ==> split_content(
            *old(pool),
            *final(pool),
            parent_page_id,
            child_idx as int,
            fresh,
        )),
        r matches Err(e) ==> e.kind() == ErrorKind::InvalidOperation || e.kind() == ErrorKind::Corruption,
{
    let ghost p0 = *pool;
    let mut parent = load_node(pool, parent_page_id)?;
    proof {
        lemma_parsed_shape((p0.content(parent_page_id)->0).1);
    }
    if child_idx >= parent.children.len() {
        return Err(invalid("child index out of bounds"));
    }
    let child_page_id = parent.children[child_idx];
    let ghost p1 = *pool;
    let mut child = load_node(pool, child_page_id)?;
    proof {
        lemma_parsed_shape((p1.content(child_page_id)->0).1);
    }
    let mid = child.keys.len() / 2;
    if mid >= child.keys.len() {
        return Err(invalid("mid key missing"));
    }
    let mid_key = child.keys[mid].duplicate();
    let ghost p2 = *pool;
    let new_child_page_id = allocate_node(pool, child.is_leaf)?;
    let ghost p3 = *pool;
    let mut new_child = load_node(pool, new_child_page_id)?;
    proof {
        lemma_parsed_shape((p3.content(new_child_page_id)->0).1);
        lemma_empty_node(child.is_leaf);
    }
    let ghost pv = parent@;
    let ghost cv = child@;
    new_child.is_leaf = child.is_leaf;
    new_child.parent_page_id = parent_page_id;
    if child.is_leaf {
        new_child.keys = child.keys.split_off(mid);
        new_child.values = child.values.split_off(mid);
    } else {
        new_child.keys = child.keys.split_off(mid + 1);
        new_child.children = child.children.split_off(mid + 1);
    }
    let ghost mk = mid_key@;
    parent.keys.insert(child_idx, mid_key);
    parent.children.insert(child_idx + 1, new_child_page_id);
    proof {
        let m = mid as int;
        if p0.coherent() {
            assert(child@ == left_half(cv)) by {
                assert(key_views(child.keys@) =~= left_half(cv).keys);
            }
            assert(new_child@ == right_half(cv, parent_page_id)) by {
                assert(key_views(new_child.keys@) =~= right_half(cv, parent_page_id).keys);
            }
        }
        assert(parent@ == with_separator(pv, child_idx as int, mk, new_child_page_id)) by {
            assert(key_views(parent.keys@) =~= pv.keys.insert(child_idx as int, mk));
        }
    }
    let ghost p4 = *pool;
    save_node(pool, &child)?;
    let ghost p5 = *pool;
    save_node(pool, &new_child)?;
    let ghost p6 = *pool;
    save_node(pool, &parent)?;
    proof {
        lemma_node_roundtrip(child@);
        lemma_node_roundtrip(new_child@);
        if p0.coherent() {
            let pn = with_separator(pv, child_idx as int, mk, new_child_page_id);
            assert(well_shaped(pn));
            lemma_node_roundtrip(pn);
            assert(node_at(*pool, parent_page_id) == Some(pn));
            assert(mk == cv.keys[mid as int]);
            assert forall|x: u32| #[trigger] pool.content(x) == if x == parent_page_id {
                Some((index_header(header_at(p0, x)), node_body(pn)))
            } else if x == new_child_page_id {
                Some((fresh_index_header(x), node_body(right_half(cv, parent_page_id))))
            } else if x == child_page_id {
                Some((index_header(header_at(p0, x)), node_body(left_half(cv))))
            } else {
                p0.content(x)
            } by {
                assert(pool.content(x) == if x == parent_page_id {
                    Some((index_header(header_at(p6, x)), node_body(pn)))
                } else {
                    p6.content(x)
                });
                assert(p6.content(x) == if x == new_child_page_id {
                    Some((index_header(header_at(p5, x)), node_body(right_half(cv, parent_page_id))))
                } else {
                    p5.content(x)
                });
                assert(p5.content(x) == if x == child_page_id {
                    Some((index_header(header_at(p4, x)), node_body(left_half(cv))))
                } else {
                    p4.content(x)
                });
                assert(p4.content(x) == p3.content(x));
                assert(p3.content(x) == if x == p2.disk().len() {
                    Some((fresh_index_header(x), empty_node_body(cv.is_leaf)))
                } else {
                    p2.content(x)
                });
                assert(p2.content(x) == p0.content(x));
            }
        }
    }
    Ok(new_child_page_id)
}

/// A search that goes from `from` down to `to` finds there what it finds
/// from `to`.
proof fn lemma_finds_through(pool: BufferPool, from: u32, key: KeyView, to: u32, value: u64)
    requires
        steps_to(pool, from, key, to),
        finds(pool, to, key, value),
    ensures
        finds(pool, from, key, value),
{
    let q = choose|path: Seq<u32>|
        #[trigger] descends(pool, to, key, path) && leaf_get(node_at(pool, path.last())->0, key) == Some(
            value,
        );
    let p = seq![from] + q;
    assert(p.last() == q.last());
    assert forall|j: int| 0 <= j < p.len() - 1 implies steps_to(pool, #[trigger] p[j], key, p[j + 1]) by {
        if j > 0 {
            assert(p[j] == q[j - 1] && p[j + 1] == q[j]);
            assert(steps_to(pool, q[j - 1], key, q[j]));
        }
    }
    assert(descends(pool, from, key, p));
}

/// Whether `x` is in `s`.
fn contains_page(s: &[u32], x: u32) -> (r: bool)
    ensures
        r == s@.contains(x),
{
    let mut i: usize = 0;
    while i < s.len()
        invariant
            i <= s@.len(),
            forall|j: int| 0 <= j < i ==> s@[j] != x,
        decreases s@.len() - i,
    {
        if s[i] == x {
            return true;
        }
        i = i + 1;
    }
    false
}

/// `s` followed by `x`.
fn with_page(s: &Vec<u32>, x: u32) -> (r: Vec<u32>)
    ensures
        r@ == s@.push(x),
{
    let mut out: Vec<u32> = Vec::new();
    let mut i: usize = 0;
    while i < s.len()
        invariant
            i <= s@.len(),
            out@ == s@.subrange(0, i as int),
        decreases s@.len() - i,
    {
        out.push(s[i]);
        i = i + 1;
        assert(out@ =~= s@.subrange(0, i as int));
    }
    out.push(x);
    assert(out@ =~= s@.push(x));
    out
}

/// Inserts `key` with `value` below the node of page `page_id`, which is
/// not full: into the leaf in key order, or down the child a search for
/// `key` takes, splitting that child first if it is full. `ancestors` are
/// the pages passed on the way down. On a coherent pool, once it succeeds,
/// a search for `key` from `page_id` finds `value` and the pages of
/// `ancestors` are unchanged. A key already in the leaf is a constraint
/// violation; a walk that comes back to a page or does not end is
/// corruption.
#[verifier::rlimit(60)]
/// The leaf `n` with `key` and `value` put in at the first key not less
/// than `key`.
pub open spec fn leaf_with(n: NodeView, key: KeyView, value: u64) -> NodeView {
    let p = lower_from(n.keys, key, 0);
    NodeView { keys: n.keys.insert(p, key), values: n.values.insert(p, value), ..n }
}

/// The keys are in strictly increasing order.
pub open spec fn keys_sorted(keys: Seq<KeyView>) -> bool {
    forall|i: int, j: int| 0 <= i < j < keys.len() ==> key_lt(#[trigger] keys[i], #[trigger] keys[j])
}

/// The first position from `j` on whose key is not less than `key`: every
/// key before it from `j` is less.
proof fn lemma_lower_from_bounds(keys: Seq<KeyView>, key: KeyView, j: int)
    requires
        0 <= j <= keys.len(),
    ensures
        j <= lower_from(keys, key, j) <= keys.len(),
        forall|i: int| j <= i < lower_from(keys, key, j) ==> key_lt(#[trigger] keys[i], key),
        lower_from(keys, key, j) < keys.len() ==> !key_lt(keys[lower_from(keys, key, j)], key),
    decreases keys.len() - j,
{
    if j < keys.len() && key_lt(keys[j], key) {
        lemma_lower_from_bounds(keys, key, j + 1);
    }
}

/// Putting a new key into a leaf of sorted keys leaves what every other
/// key finds in the leaf unchanged.
pub proof fn lemma_leaf_insert_keeps_others(n: NodeView, key: KeyView, value: u64, other: KeyView)
    requires
        keys_sorted(n.keys),
        n.values.len() == n.keys.len(),
        leaf_get(n, key) is None,
        other != key,
    ensures
        leaf_get(leaf_with(n, key, value), other) == leaf_get(n, other),
{
    let keys = n.keys;
    let p = lower_from(keys, key, 0);
    let q = lower_from(keys, other, 0);
    lemma_lower_from_bounds(keys, key, 0);
    lemma_lower_from_bounds(keys, other, 0);
    let k2 = keys.insert(p, key);
    let v2 = n.values.insert(p, value);
    lemma_key_order(key, other, key);
    lemma_key_order(other, key, other);
    if key_lt(key, other) {
        assert forall|i: int| 0 <= i < p implies key_lt(#[trigger] keys[i], other) by {
            lemma_key_order(keys[i], key, other);
        }
        if q < p {
            assert(key_lt(keys[q], other));
        }
        assert forall|i: int| 0 <= i < q + 1 implies key_lt(#[trigger] k2[i], other) by {
            if i > p {
                assert(k2[i] == keys[i - 1]);
            }
        }
        if q < keys.len() {
            assert(k2[q + 1] == keys[q]);
        }
        lemma_lower_from(k2, other, 0, q + 1);
        if q < keys.len() {
            assert(v2[q + 1] == n.values[q]);
        }
    } else {
        assert(key_lt(other, key));
        if p < keys.len() {
            assert(keys[p] != key);
            lemma_key_order(key, keys[p], key);
            lemma_key_order(other, key, keys[p]);
            lemma_key_order(other, keys[p], other);
            if q > p {
                assert(key_lt(keys[p], other));
            }
        }
        assert(q <= p);
        assert forall|i: int| 0 <= i < q implies key_lt(#[trigger] k2[i], other) by {
            assert(k2[i] == keys[i]);
        }
        lemma_lower_from(k2, other, 0, q);
        if q < p {
            assert(k2[q] == keys[q]);
            assert(v2[q] == n.values[q]);
        }
        if q == p && p < keys.len() {
            lemma_key_order(other, keys[p], other);
        }
    }
}

/// In a tree of one leaf of sorted keys, putting in a new key (as
/// [`BTreeOnDisk::insert_static`] leaves the leaf) keeps what a search for
/// every other key finds.
pub proof fn lemma_leaf_root_insert_keeps_lookups(
    before: BufferPool,
    after: BufferPool,
    root: u32,
    key: KeyView,
    value: u64,
    other: KeyView,
    fuel: nat,
)
    requires
        node_at(before, root) matches Some(n) && n.is_leaf && keys_sorted(n.keys) && n.values.len() == n.keys.len()
            && leaf_get(n, key) is None && node_at(after, root) == Some(leaf_with(n, key, value)),
        other != key,
    ensures
        lookup_walk(after, root, other, fuel) == lookup_walk(before, root, other, fuel),
{
    let n = node_at(before, root)->0;
    lemma_leaf_insert_keeps_others(n, key, value, other);
    let m = leaf_with(n, key, value);
    lemma_lower_from_bounds(n.keys, key, 0);
    assert(m.values.len() == m.keys.len());
}

/// The leaf that a search for `key` from page `id` reaches in at most `fuel`
/// more levels, where no node it goes down to is full (holds
/// `MAX_KEYS_PER_NODE` keys or more); `None` where the search meets a full
/// node, a page that does not hold a node, or a missing child, or where the
/// fuel runs out. An insert along such a search splits nothing.
pub open spec fn quiet_walk(pool: BufferPool, id: u32, key: KeyView, fuel: nat) -> Option<u32>
    decreases fuel,
{
    match node_at(pool, id) {
        None => None,
        Some(n) => if n.is_leaf {
            Some(id)
        } else {
            let i = child_index(n.keys, key);
            if i >= n.children.len() || fuel == 0 {
                None
            } else {
                match node_at(pool, n.children[i]) {
                    Some(c) => if c.keys.len() < MAX_KEYS_PER_NODE {
                        quiet_walk(pool, n.children[i], key, (fuel - 1) as nat)
                    } else {
                        None
                    },
                    None => None,
                }
            }
        },
    }
}

proof fn lemma_quiet_walk_same(p1: BufferPool, p2: BufferPool, id: u32, key: KeyView, fuel: nat)
    requires
        forall|x: u32| #[trigger] p1.content(x) == p2.content(x),
    ensures
        quiet_walk(p1, id, key, fuel) == quiet_walk(p2, id, key, fuel),
    decreases fuel,
{
    assert(node_at(p1, id) == node_at(p2, id));
    if let Some(n) = node_at(p1, id) {
        let i = child_index(n.keys, key);
        if !n.is_leaf && i < n.children.len() && fuel > 0 {
            assert(node_at(p1, n.children[i]) == node_at(p2, n.children[i]));
            lemma_quiet_walk_same(p1, p2, n.children[i], key, (fuel - 1) as nat);
        }
    }
}

proof fn lemma_quiet_walk_leaf(pool: BufferPool, id: u32, key: KeyView, fuel: nat)
    requires
        quiet_walk(pool, id, key, fuel) is Some,
    ensures
        leaf_at(pool, quiet_walk(pool, id, key, fuel)->0),
    decreases fuel,
{
    let n = node_at(pool, id)->0;
    if !n.is_leaf {
        lemma_quiet_walk_leaf(pool, n.children[child_index(n.keys, key)], key, (fuel - 1) as nat);
    }
}

/// A search path stays a search path where only the content of the leaf
/// page `l` changes and it stays a leaf.
proof fn lemma_path_kept(p1: BufferPool, p2: BufferPool, root: u32, key: KeyView, b: Seq<u32>, l: u32)
    requires
        descends(p1, root, key, b),
        forall|x: u32| x != l ==> #[trigger] node_at(p2, x) == node_at(p1, x),
        leaf_at(p1, l),
        leaf_at(p2, l),
    ensures
        descends(p2, root, key, b),
{
    assert forall|j: int| 0 <= j < b.len() - 1 implies steps_to(p2, #[trigger] b[j], key, b[j + 1]) by {
        assert(steps_to(p1, b[j], key, b[j + 1]));
        if b[j] == l {
            assert(false);
        }
        assert(node_at(p2, b[j]) == node_at(p1, b[j]));
    }
    if b.last() != l {
        assert(node_at(p2, b.last()) == node_at(p1, b.last()));
    }
}

/// Putting a new key into one leaf of a tree of any shape, where only that
/// leaf's page changes and its keys are sorted, keeps what a search for
/// every other key gives: the search goes the same way and finds the same.
pub proof fn lemma_leaf_insert_keeps_lookups(
    before: BufferPool,
    after: BufferPool,
    root: u32,
    l: u32,
    key: KeyView,
    value: u64,
    other: KeyView,
    v: Option<u64>,
)
    requires
        node_at(before, l) matches Some(n) && n.is_leaf && keys_sorted(n.keys) && n.values.len() == n.keys.len()
            && leaf_get(n, key) is None && node_at(after, l) == Some(leaf_with(n, key, value)),
        forall|x: u32| x != l ==> #[trigger] node_at(after, x) == node_at(before, x),
        other != key,
    ensures
        found(after, root, other, v) <==> found(before, root, other, v),
{
    let n = node_at(before, l)->0;
    lemma_leaf_insert_keeps_others(n, key, value, other);
    assert(leaf_at(before, l));
    assert(leaf_at(after, l));
    if found(after, root, other, v) {
        let b = choose|path: Seq<u32>|
            #[trigger] descends(after, root, other, path) && leaf_get(node_at(after, path.last())->0, other) == v;
        lemma_path_kept(after, before, root, other, b, l);
        assert(descends(before, root, other, b) && leaf_get(node_at(before, b.last())->0, other) == v);
    }
    if found(before, root, other, v) {
        let b = choose|path: Seq<u32>|
            #[trigger] descends(before, root, other, path) && leaf_get(node_at(before, path.last())->0, other) == v;
        lemma_path_kept(before, after, root, other, b, l);
        assert(descends(after, root, other, b) && leaf_get(node_at(after, b.last())->0, other) == v);
    }
}

/// Every leaf that a search from page `root` reaches has its keys in
/// strictly increasing order and one value for each key.
pub open spec fn leaves_sane(pool: BufferPool, root: u32) -> bool {
    forall|k: KeyView, a: Seq<u32>|
        #[trigger] descends(pool, root, k, a) ==> keys_sorted((node_at(pool, a.last())->0).keys) && (node_at(
            pool,
            a.last(),
        )->0).values.len() == (node_at(pool, a.last())->0).keys.len()
}

/// The leaf a walk without splits reaches is the end of the search path.
proof fn lemma_quiet_walk_path(pool: BufferPool, id: u32, key: KeyView, fuel: nat) -> (a: Seq<u32>)
    requires
        quiet_walk(pool, id, key, fuel) is Some,
    ensures
        descends(pool, id, key, a),
        a.last() == quiet_walk(pool, id, key, fuel)->0,
    decreases fuel,
{
    let n = node_at(pool, id)->0;
    if n.is_leaf {
        seq![id]
    } else {
        let c = n.children[child_index(n.keys, key)];
        let q = lemma_quiet_walk_path(pool, c, key, (fuel - 1) as nat);
        lemma_descends_cons(pool, id, key, q);
        seq![id] + q
    }
}

/// A key put into a leaf of sorted keys where it is not keeps the keys
/// sorted and one value for each.
proof fn lemma_leaf_with_sane(n: NodeView, key: KeyView, value: u64)
    requires
        keys_sorted(n.keys),
        n.values.len() == n.keys.len(),
        leaf_get(n, key) is None,
    ensures
        keys_sorted(leaf_with(n, key, value).keys),
        leaf_with(n, key, value).values.len() == leaf_with(n, key, value).keys.len(),
{
    let keys = n.keys;
    let p = lower_from(keys, key, 0);
    lemma_lower_from_bounds(keys, key, 0);
    let k2 = keys.insert(p, key);
    if p < keys.len() {
        lemma_key_order(key, keys[p], key);
        assert(key_lt(key, keys[p]));
    }
    assert forall|i: int, j: int| 0 <= i < j < k2.len() implies key_lt(#[trigger] k2[i], #[trigger] k2[j]) by {
        if j < p {
            assert(k2[i] == keys[i] && k2[j] == keys[j]);
        } else if j == p {
            assert(k2[i] == keys[i]);
        } else if i < p {
            assert(k2[i] == keys[i] && k2[j] == keys[j - 1]);
            if j - 1 > p {
                lemma_key_order(keys[i], keys[p], keys[j - 1]);
            }
            lemma_key_order(keys[i], key, keys[p]);
        } else if i == p {
            assert(k2[j] == keys[j - 1]);
            if j - 1 > p {
                lemma_key_order(key, keys[p], keys[j - 1]);
            }
        } else {
            assert(k2[i] == keys[i - 1] && k2[j] == keys[j - 1]);
        }
    }
}

/// An insert into one leaf, where only that leaf's page changes, keeps every
/// leaf a search reaches sane.
pub proof fn lemma_leaf_insert_keeps_sane(before: BufferPool, after: BufferPool, root: u32, l: u32, key: KeyView, value: u64)
    requires
        leaves_sane(before, root),
        node_at(before, l) matches Some(n) && n.is_leaf && keys_sorted(n.keys) && n.values.len() == n.keys.len()
            && leaf_get(n, key) is None && node_at(after, l) == Some(leaf_with(n, key, value)),
        forall|x: u32| x != l ==> #[trigger] node_at(after, x) == node_at(before, x),
    ensures
        leaves_sane(after, root),
{
    let n = node_at(before, l)->0;
    lemma_leaf_with_sane(n, key, value);
    assert(leaf_at(before, l));
    assert(leaf_at(after, l));
    assert forall|k: KeyView, b: Seq<u32>| #[trigger] descends(after, root, k, b) implies keys_sorted(
        (node_at(after, b.last())->0).keys,
    ) && (node_at(after, b.last())->0).values.len() == (node_at(after, b.last())->0).keys.len() by {
        lemma_path_kept(after, before, root, k, b, l);
        assert(descends(before, root, k, b));
    }
}

/// A leaf with its keys in strictly increasing order, one value for each,
/// and room for no more than `MAX_KEYS_PER_NODE` keys.
pub open spec fn leaf_sane(n: NodeView) -> bool {
    n.is_leaf && keys_sorted(n.keys) && n.values.len() == n.keys.len() && n.keys.len() <= MAX_KEYS_PER_NODE
}

/// The leaf `c` fits as the child at `i` of the inner node `r`: a sane
/// leaf whose keys sort before `r`'s key at `i` and not before the one at
/// `i - 1`.
pub open spec fn child_fits(r: NodeView, i: int, c: NodeView) -> bool {
    &&& leaf_sane(c)
    &&& forall|j: int|
        0 <= j < c.keys.len() ==> (i < r.keys.len() ==> key_lt(#[trigger] c.keys[j], r.keys[i])) && (i > 0
            ==> !key_lt(c.keys[j], r.keys[i - 1]))
}

/// A search for `key` from page `root` finds a value: the tree holds the key.
pub open spec fn holds_key(pool: BufferPool, root: u32, key: KeyView) -> bool {
    exists|w: u64| #[trigger] found(pool, root, key, Some(w))
}

/// A tree of one or two levels: a sane leaf, or an inner root of sorted
/// keys whose children are distinct pages, other than the root's, each a
/// leaf that fits where it stands.
pub open spec fn small_tree(pool: BufferPool, root: u32) -> bool {
    match node_at(pool, root) {
        None => false,
        Some(r) => if r.is_leaf {
            leaf_sane(r)
        } else {
            &&& keys_sorted(r.keys)
            &&& r.keys.len() <= MAX_KEYS_PER_NODE
            &&& r.children.len() == r.keys.len() + 1
            &&& forall|i: int, j: int|
                0 <= i < j < r.children.len() ==> #[trigger] r.children[i] != #[trigger] r.children[j]
            &&& forall|i: int|
                0 <= i < r.children.len() ==> #[trigger] r.children[i] != root && node_at(pool, r.children[i]) is Some
                    && child_fits(r, i, node_at(pool, r.children[i])->0)
        },
    }
}

/// A key put into a leaf lands between the keys it sorts between: every key
/// of the new leaf is the key or one of the old ones.
proof fn lemma_leaf_with_keys(n: NodeView, key: KeyView, value: u64, j: int)
    requires
        0 <= j < leaf_with(n, key, value).keys.len(),
    ensures
        leaf_with(n, key, value).keys[j] == key || exists|q: int|
            0 <= q < n.keys.len() && #[trigger] n.keys[q] == leaf_with(n, key, value).keys[j],
{
    let p = lower_from(n.keys, key, 0);
    lemma_lower_from_bounds(n.keys, key, 0);
    if j < p {
        assert(n.keys[j] == leaf_with(n, key, value).keys[j]);
    } else if j > p {
        assert(n.keys[j - 1] == leaf_with(n, key, value).keys[j]);
    }
}

/// An insert into the leaf a key's search reaches in a small tree, where
/// only that leaf changes, keeps the tree small.
proof fn lemma_small_tree_quiet(before: BufferPool, after: BufferPool, root: u32, l: u32, key: KeyView, value: u64)
    requires
        small_tree(before, root),
        node_at(before, root) matches Some(r) && (if r.is_leaf {
            l == root && r.keys.len() < MAX_KEYS_PER_NODE
        } else {
            l == r.children[child_index(r.keys, key)] && (node_at(before, l)->0).keys.len() < MAX_KEYS_PER_NODE
        }),
        node_at(before, l) matches Some(n) && leaf_get(n, key) is None && node_at(after, l) == Some(
            leaf_with(n, key, value),
        ),
        forall|x: u32| x != l ==> #[trigger] node_at(after, x) == node_at(before, x),
    ensures
        small_tree(after, root),
{
    let r = node_at(before, root)->0;
    let n = node_at(before, l)->0;
    let m = leaf_with(n, key, value);
    if r.is_leaf {
        lemma_leaf_with_sane(n, key, value);
        lemma_lower_from_bounds(n.keys, key, 0);
    } else {
        let ci = child_index(r.keys, key);
        lemma_upper_from_bounds(r.keys, key, 0);
        assert(child_fits(r, ci, n));
        lemma_leaf_with_sane(n, key, value);
        lemma_lower_from_bounds(n.keys, key, 0);
        assert(node_at(after, root) == Some(r));
        assert forall|j: int| 0 <= j < m.keys.len() implies (ci < r.keys.len() ==> key_lt(#[trigger] m.keys[j], r.keys[ci]))
            && (ci > 0 ==> !key_lt(m.keys[j], r.keys[ci - 1])) by {
            lemma_leaf_with_keys(n, key, value, j);
            if m.keys[j] != key {
                let q = choose|q: int| 0 <= q < n.keys.len() && #[trigger] n.keys[q] == m.keys[j];
                assert(n.keys[q] == m.keys[j]);
            } else if ci > 0 {
                assert(!key_lt(key, r.keys[ci - 1]));
            }
        }
        assert(child_fits(r, ci, m));
        assert forall|i: int| 0 <= i < r.children.len() implies #[trigger] r.children[i] != root && node_at(
            after,
            r.children[i],
        ) is Some && child_fits(r, i, node_at(after, r.children[i])->0) by {
            if r.children[i] == l {
                if i != ci {
                    if i < ci {
                        assert(r.children[i] != r.children[ci]);
                    } else {
                        assert(r.children[ci] != r.children[i]);
                    }
                }
            } else {
                assert(node_at(after, r.children[i]) == node_at(before, r.children[i]));
            }
        }
    }
}

/// The halves of a sane full leaf are sane leaves with room: the left one's
/// keys sort before the middle key, the right one's not before it.
proof fn lemma_leaf_halves(c: NodeView, nr: u32)
    requires
        leaf_sane(c),
        c.keys.len() >= 1,
    ensures
        ({
            let mid = (c.keys.len() / 2) as int;
            let lh = normalized(left_half(c));
            let rh = normalized(right_half(c, nr));
            &&& leaf_sane(lh) && lh.keys.len() < MAX_KEYS_PER_NODE
            &&& leaf_sane(rh) && rh.keys.len() < MAX_KEYS_PER_NODE
            &&& forall|j: int| 0 <= j < lh.keys.len() ==> key_lt(#[trigger] lh.keys[j], c.keys[mid])
            &&& forall|j: int| 0 <= j < rh.keys.len() ==> !key_lt(#[trigger] rh.keys[j], c.keys[mid])
        }),
{
    let mid = (c.keys.len() / 2) as int;
    let lh = normalized(left_half(c));
    let rh = normalized(right_half(c, nr));
    assert forall|i: int, j: int| 0 <= i < j < lh.keys.len() implies key_lt(#[trigger] lh.keys[i], #[trigger] lh.keys[j]) by {
        assert(lh.keys[i] == c.keys[i] && lh.keys[j] == c.keys[j]);
    }
    assert forall|i: int, j: int| 0 <= i < j < rh.keys.len() implies key_lt(#[trigger] rh.keys[i], #[trigger] rh.keys[j]) by {
        assert(rh.keys[i] == c.keys[i + mid] && rh.keys[j] == c.keys[j + mid]);
    }
    assert forall|j: int| 0 <= j < lh.keys.len() implies key_lt(#[trigger] lh.keys[j], c.keys[mid]) by {
        assert(lh.keys[j] == c.keys[j]);
    }
    assert forall|j: int| 0 <= j < rh.keys.len() implies !key_lt(#[trigger] rh.keys[j], c.keys[mid]) by {
        assert(rh.keys[j] == c.keys[j + mid]);
        lemma_key_order(c.keys[mid], c.keys[j + mid], c.keys[mid]);
    }
}

/// A root split of a full leaf followed by an insert into the half the key
/// goes to (as [`BTreeOnDisk::insert_static`] does it) gives a small tree
/// of two levels, and keeps what a search for every other key gives.
pub proof fn lemma_small_tree_root_split(
    p1: BufferPool,
    p2: BufferPool,
    fin: BufferPool,
    root: u32,
    nr: u32,
    l: u32,
    key: KeyView,
    value: u64,
)
    requires
        p1.wf(),
        small_tree(p1, root),
        node_at(p1, root) matches Some(c) && c.is_leaf && c.keys.len() >= MAX_KEYS_PER_NODE,
        root_split(p1, p2, root, nr),
        l == (node_at(p2, nr)->0).children[child_index((node_at(p2, nr)->0).keys, key)],
        node_at(p2, l) matches Some(n) && leaf_get(n, key) is None && node_at(fin, l) == Some(leaf_with(n, key, value)),
        forall|x: u32| x != l ==> #[trigger] node_at(fin, x) == node_at(p2, x),
    ensures
        small_tree(fin, nr),
        forall|k2: KeyView, v: Option<u64>|
            k2 != key ==> (#[trigger] found(fin, nr, k2, v) <==> found(p1, root, k2, v)),
        !holds_key(p1, root, key),
{
    let c = node_at(p1, root)->0;
    let mid = (c.keys.len() / 2) as int;
    let sep = c.keys[mid];
    let f = (nr + 1) as u32;
    let t = node_at(p2, nr)->0;
    p1.lemma_content_in_file(root);
    lemma_leaf_halves(c, nr);
    let lh = normalized(left_half(c));
    let rh = normalized(right_half(c, nr));
    assert(t.keys =~= seq![sep]);
    assert(t.children =~= seq![root, f]);
    let left = key_lt(key, sep);
    if left {
        lemma_upper_from(t.keys, key, 0, 0);
    } else {
        lemma_upper_from(t.keys, key, 0, 1);
    }
    assert(l == if left { root } else { f });
    let n = node_at(p2, l)->0;
    assert(n == if left { lh } else { rh });
    lemma_leaf_with_sane(n, key, value);
    lemma_lower_from_bounds(n.keys, key, 0);
    let m = leaf_with(n, key, value);
    assert forall|j: int| 0 <= j < m.keys.len() implies (left ==> key_lt(#[trigger] m.keys[j], sep)) && (!left
        ==> !key_lt(m.keys[j], sep)) by {
        lemma_leaf_with_keys(n, key, value, j);
        if m.keys[j] != key {
            let q = choose|q: int| 0 <= q < n.keys.len() && #[trigger] n.keys[q] == m.keys[j];
            assert(n.keys[q] == m.keys[j]);
        }
    }
    assert(node_at(fin, nr) == Some(t));
    assert(node_at(fin, root) == if left { Some(m) } else { Some(lh) });
    assert(node_at(fin, f) == if left { Some(rh) } else { Some(m) });
    assert(child_fits(t, 0, node_at(fin, root)->0));
    assert(child_fits(t, 1, node_at(fin, f)->0));
    assert forall|i: int| 0 <= i < t.children.len() implies #[trigger] t.children[i] != nr && node_at(
        fin,
        t.children[i],
    ) is Some && child_fits(t, i, node_at(fin, t.children[i])->0) by {
        if i == 0 {
            assert(t.children[i] == root);
        } else {
            assert(t.children[i] == f);
        }
    }
    assert(small_tree(fin, nr));
    assert forall|k2: KeyView, v: Option<u64>| k2 != key implies (#[trigger] found(fin, nr, k2, v) <==> found(
        p1,
        root,
        k2,
        v,
    )) by {
        lemma_leaf_insert_keeps_lookups(p2, fin, nr, l, key, value, k2, v);
        if found(p1, root, k2, v) {
            lemma_root_split_keeps_lookups(p1, p2, root, nr, k2, v);
        }
        if found(fin, nr, k2, v) {
            let w = leaf_get(c, k2);
            assert(descends(p1, root, k2, seq![root]));
            assert(found(p1, root, k2, w));
            lemma_root_split_keeps_lookups(p1, p2, root, nr, k2, w);
            lemma_found_unique(p2, nr, k2, w, v);
        }
    }
    if holds_key(p1, root, key) {
        let w = choose|w: u64| #[trigger] found(p1, root, key, Some(w));
        lemma_root_split_keeps_lookups(p1, p2, root, nr, key, Some(w));
        assert(steps_to(p2, nr, key, l));
        assert(descends(p2, nr, key, seq![nr, l]));
        assert(found(p2, nr, key, None));
        lemma_found_unique(p2, nr, key, None, Some(w));
    }
}

/// A key put between its neighbours keeps sorted keys sorted.
proof fn lemma_insert_sorted(keys: Seq<KeyView>, i: int, k: KeyView)
    requires
        keys_sorted(keys),
        0 <= i <= keys.len(),
        i > 0 ==> key_lt(keys[i - 1], k),
        i < keys.len() ==> key_lt(k, keys[i]),
    ensures
        keys_sorted(keys.insert(i, k)),
{
    let k2 = keys.insert(i, k);
    assert forall|a: int, b: int| 0 <= a < b < k2.len() implies key_lt(#[trigger] k2[a], #[trigger] k2[b]) by {
        if b < i {
            assert(k2[a] == keys[a] && k2[b] == keys[b]);
        } else if b == i {
            assert(k2[a] == keys[a]);
            if a < i - 1 {
                lemma_key_order(keys[a], keys[i - 1], k);
            }
        } else if a < i {
            assert(k2[a] == keys[a] && k2[b] == keys[b - 1]);
        } else if a == i {
            assert(k2[b] == keys[b - 1]);
            if b - 1 > i {
                lemma_key_order(k, keys[i], keys[b - 1]);
            }
        } else {
            assert(k2[a] == keys[a - 1] && k2[b] == keys[b - 1]);
        }
    }
}

/// In a small tree of two levels, the search for a key takes the root and
/// then the leaf child its keys send it to.
proof fn lemma_small_tree_path(pool: BufferPool, root: u32, k: KeyView)
    requires
        small_tree(pool, root),
        !(node_at(pool, root)->0).is_leaf,
    ensures
        ({
            let r = node_at(pool, root)->0;
            let ch = r.children[child_index(r.keys, k)];
            &&& 0 <= child_index(r.keys, k) < r.children.len()
            &&& descends(pool, root, k, seq![root, ch])
            &&& found(pool, root, k, leaf_get(node_at(pool, ch)->0, k))
            &&& forall|a: Seq<u32>| #[trigger] descends(pool, root, k, a) ==> a == seq![root, ch]
        }),
{
    let r = node_at(pool, root)->0;
    let ci = child_index(r.keys, k);
    lemma_upper_from_bounds(r.keys, k, 0);
    let ch = r.children[ci];
    let a = seq![root, ch];
    assert(steps_to(pool, a[0], k, a[1]));
    assert(descends(pool, root, k, a));
    assert forall|b: Seq<u32>| #[trigger] descends(pool, root, k, b) implies b == a by {
        lemma_descent_unique(pool, root, k, a, b);
    }
}

/// The shape half of [`lemma_small_tree_child_split`]: the tree stays small,
/// and the key goes to a half that is a leaf.
#[verifier::spinoff_prover]
#[verifier::rlimit(100)]
proof fn lemma_small_tree_child_split_shape(p0: BufferPool, mid: BufferPool, fin: BufferPool, root: u32, key: KeyView, value: u64)
    requires
        p0.wf(),
        small_tree(p0, root),
        node_at(p0, root) matches Some(r) && !r.is_leaf && r.keys.len() < MAX_KEYS_PER_NODE && (node_at(
            p0,
            r.children[child_index(r.keys, key)],
        )->0).keys.len() >= MAX_KEYS_PER_NODE,
        split_then_leaf_insert(p0, mid, fin, root, key, value),
    ensures
        small_tree(fin, root),
        ({
            let q = node_at(mid, root)->0;
            let r = node_at(p0, root)->0;
            let tg = q.children[child_index(q.keys, key)];
            leaf_at(mid, tg) && (tg == r.children[child_index(r.keys, key)] || tg == p0.disk().len() as u32)
        }),
{
    let r = node_at(p0, root)->0;
    let ci = child_index(r.keys, key);
    lemma_upper_from_bounds(r.keys, key, 0);
    lemma_parsed_shape((p0.content(root)->0).1);
    let cid = r.children[ci];
    let c = node_at(p0, cid)->0;
    let m = (c.keys.len() / 2) as int;
    let sep = c.keys[m];
    let f = p0.disk().len() as u32;
    assert(child_fits(r, ci, c));
    p0.lemma_content_in_file(root);
    assert forall|i: int| 0 <= i < r.children.len() implies #[trigger] r.children[i] != f by {
        assert(node_at(p0, r.children[i]) is Some);
        p0.lemma_content_in_file(r.children[i]);
    }
    lemma_leaf_halves(c, root);
    let lh = normalized(left_half(c));
    let rh = normalized(right_half(c, root));
    let q = with_separator(r, ci, sep, f);
    assert(node_at(mid, root) == Some(q));
    assert(node_at(mid, cid) == Some(lh));
    assert(node_at(mid, f) == Some(rh));
    assert(key_lt(c.keys[0], sep));
    if ci < r.keys.len() {
        assert(key_lt(sep, r.keys[ci]));
        lemma_key_order(sep, r.keys[ci], sep);
    }
    if ci > 0 {
        lemma_key_order(r.keys[ci - 1], c.keys[0], sep);
        lemma_key_order(c.keys[0], r.keys[ci - 1], sep);
        assert(key_lt(r.keys[ci - 1], sep));
    }
    lemma_insert_sorted(r.keys, ci, sep);
    lemma_route_with_separator(r, ci, sep, f, key);
    let left = key_lt(key, sep);
    let tg = q.children[child_index(q.keys, key)];
    assert(tg == if left { cid } else { f });
    assert(leaf_at(mid, tg));
    let n = node_at(mid, tg)->0;
    lemma_leaf_with_sane(n, key, value);
    lemma_lower_from_bounds(n.keys, key, 0);
    let nm = leaf_with(n, key, value);
    // the key lies in the range of the child it is put into
    assert forall|j: int| 0 <= j < nm.keys.len() implies (left ==> key_lt(#[trigger] nm.keys[j], sep) && (ci > 0
        ==> !key_lt(nm.keys[j], r.keys[ci - 1]))) && (!left ==> !key_lt(nm.keys[j], sep) && (ci < r.keys.len()
        ==> key_lt(nm.keys[j], r.keys[ci]))) by {
        lemma_leaf_with_keys(n, key, value, j);
        if nm.keys[j] != key {
            let qq = choose|qq: int| 0 <= qq < n.keys.len() && #[trigger] n.keys[qq] == nm.keys[j];
            assert(n.keys[qq] == nm.keys[j]);
            if left {
                assert(n.keys[qq] == c.keys[qq]);
            } else {
                assert(n.keys[qq] == c.keys[qq + m]);
            }
        }
    }
    assert forall|j: int| 0 <= j < lh.keys.len() implies ci > 0 ==> !key_lt(#[trigger] lh.keys[j], r.keys[ci - 1]) by {
        assert(lh.keys[j] == c.keys[j]);
    }
    assert forall|j: int| 0 <= j < rh.keys.len() implies ci < r.keys.len() ==> key_lt(#[trigger] rh.keys[j], r.keys[ci]) by {
        assert(rh.keys[j] == c.keys[j + m]);
    }
    assert(node_at(fin, root) == Some(q));
    assert forall|i: int| 0 <= i < q.children.len() implies #[trigger] q.children[i] != root && node_at(
        fin,
        q.children[i],
    ) is Some && child_fits(q, i, node_at(fin, q.children[i])->0) by {
        if i < ci {
            assert(q.children[i] == r.children[i]);
            assert(r.children[i] != cid);
            assert(node_at(fin, q.children[i]) == node_at(p0, r.children[i]));
            assert(child_fits(r, i, node_at(p0, r.children[i])->0));
        } else if i == ci {
            assert(q.children[i] == cid);
        } else if i == ci + 1 {
            assert(q.children[i] == f);
        } else {
            assert(q.children[i] == r.children[i - 1]);
            assert(r.children[i - 1] != cid);
            assert(node_at(fin, q.children[i]) == node_at(p0, r.children[i - 1]));
            assert(child_fits(r, i - 1, node_at(p0, r.children[i - 1])->0));
        }
    }
    assert forall|i: int, j: int| 0 <= i < j < q.children.len() implies #[trigger] q.children[i]
        != #[trigger] q.children[j] by {
        if j < ci + 1 {
            assert(q.children[i] == r.children[i] && q.children[j] == r.children[j]);
        } else if j == ci + 1 {
            assert(q.children[i] == r.children[i]);
        } else if i < ci + 1 {
            assert(q.children[i] == r.children[i] && q.children[j] == r.children[j - 1]);
        } else if i == ci + 1 {
            assert(q.children[j] == r.children[j - 1]);
        } else {
            assert(q.children[i] == r.children[i - 1] && q.children[j] == r.children[j - 1]);
        }
    }
    assert(small_tree(fin, root));
}

/// In a small tree of two levels whose root has room, splitting the full
/// leaf a key's search reaches and putting the key into the half it goes
/// to (as [`BTreeOnDisk::insert_static`] does it) keeps the tree small and
/// keeps what a search for every other key gives.
#[verifier::spinoff_prover]
#[verifier::rlimit(100)]
pub proof fn lemma_small_tree_child_split(p0: BufferPool, mid: BufferPool, fin: BufferPool, root: u32, key: KeyView, value: u64)
    requires
        p0.wf(),
        small_tree(p0, root),
        node_at(p0, root) matches Some(r) && !r.is_leaf && r.keys.len() < MAX_KEYS_PER_NODE && (node_at(
            p0,
            r.children[child_index(r.keys, key)],
        )->0).keys.len() >= MAX_KEYS_PER_NODE,
        split_then_leaf_insert(p0, mid, fin, root, key, value),
    ensures
        small_tree(fin, root),
        forall|k2: KeyView, v: Option<u64>|
            k2 != key ==> (#[trigger] found(fin, root, k2, v) <==> found(p0, root, k2, v)),
        !holds_key(p0, root, key),
{
    lemma_small_tree_child_split_shape(p0, mid, fin, root, key, value);
    let r = node_at(p0, root)->0;
    let ci = child_index(r.keys, key);
    lemma_upper_from_bounds(r.keys, key, 0);
    let cid = r.children[ci];
    let c = node_at(p0, cid)->0;
    let m = (c.keys.len() / 2) as int;
    let sep = c.keys[m];
    let f = p0.disk().len() as u32;
    let q = node_at(mid, root)->0;
    let tg = q.children[child_index(q.keys, key)];
    assert(child_fits(r, ci, c));
    if ci < r.keys.len() {
        assert(key_lt(sep, r.keys[ci]));
        lemma_key_order(sep, r.keys[ci], sep);
    }
    lemma_leaf_halves(c, root);
    assert(node_at(mid, cid) == Some(normalized(left_half(c))));
    assert(node_at(mid, f) == Some(normalized(right_half(c, root))));
    assert(only_child_of(p0, root, cid, root, ci)) by {
        assert forall|k: KeyView, a: Seq<u32>, t: int|
            #![trigger descends(p0, root, k, a), a[t]]
            descends(p0, root, k, a) && 0 <= t < a.len() && a[t] == cid implies t > 0 && a[t - 1] == root
                && child_index(r.keys, k) == ci by {
            lemma_small_tree_path(p0, root, k);
            let ck = child_index(r.keys, k);
            assert(a == seq![root, r.children[ck]]);
            if t == 1 && ck != ci {
                if ck < ci {
                    assert(r.children[ck] != r.children[ci]);
                } else {
                    assert(r.children[ci] != r.children[ck]);
                }
            }
        }
    }
    assert(leaf_sane(node_at(mid, tg)->0));
    assert forall|k2: KeyView, v: Option<u64>| k2 != key implies (#[trigger] found(fin, root, k2, v) <==> found(
        p0,
        root,
        k2,
        v,
    )) by {
        lemma_leaf_insert_keeps_lookups(mid, fin, root, tg, key, value, k2, v);
        if found(p0, root, k2, v) {
            lemma_child_split_keeps_lookups(p0, mid, root, root, ci, f, k2, v);
        }
        if found(fin, root, k2, v) {
            lemma_small_tree_path(p0, root, k2);
            let w = leaf_get(node_at(p0, r.children[child_index(r.keys, k2)])->0, k2);
            lemma_child_split_keeps_lookups(p0, mid, root, root, ci, f, k2, w);
            lemma_found_unique(mid, root, k2, w, v);
        }
    }
    if holds_key(p0, root, key) {
        let w = choose|w: u64| #[trigger] found(p0, root, key, Some(w));
        lemma_child_split_keeps_lookups(p0, mid, root, root, ci, f, key, Some(w));
        assert(steps_to(mid, root, key, tg));
        assert(descends(mid, root, key, seq![root, tg]));
        assert(found(mid, root, key, None));
        lemma_found_unique(mid, root, key, None, Some(w));
    }
}

/// Pools that hold the same nodes have the same small trees and searches.
proof fn lemma_same_nodes(p1: BufferPool, p2: BufferPool, root: u32)
    requires
        forall|x: u32| #[trigger] node_at(p1, x) == node_at(p2, x),
    ensures
        small_tree(p1, root) == small_tree(p2, root),
        forall|k: KeyView, v: Option<u64>| #[trigger] found(p1, root, k, v) == found(p2, root, k, v),
{
    assert forall|k: KeyView, a: Seq<u32>| #[trigger] descends(p1, root, k, a) == descends(p2, root, k, a) by {
        assert forall|j: int| 0 <= j < a.len() - 1 implies #[trigger] steps_to(p1, a[j], k, a[j + 1]) == steps_to(
            p2,
            a[j],
            k,
            a[j + 1],
        ) by {
            assert(node_at(p1, a[j]) == node_at(p2, a[j]));
        }
        if a.len() > 0 {
            assert(node_at(p1, a.last()) == node_at(p2, a.last()));
        }
    }
    assert forall|k: KeyView, v: Option<u64>| #[trigger] found(p1, root, k, v) == found(p2, root, k, v) by {
        if found(p1, root, k, v) {
            let a = choose|path: Seq<u32>|
                #[trigger] descends(p1, root, k, path) && leaf_get(node_at(p1, path.last())->0, k) == v;
            assert(descends(p2, root, k, a) && leaf_get(node_at(p2, a.last())->0, k) == v);
        }
        if found(p2, root, k, v) {
            let a = choose|path: Seq<u32>|
                #[trigger] descends(p2, root, k, path) && leaf_get(node_at(p2, path.last())->0, k) == v;
            assert(descends(p1, root, k, a) && leaf_get(node_at(p1, a.last())->0, k) == v);
        }
    }
    if let Some(r) = node_at(p1, root) {
        if !r.is_leaf {
            assert forall|i: int| 0 <= i < r.children.len() implies node_at(p1, #[trigger] r.children[i]) == node_at(
                p2,
                r.children[i],
            ) by {}
        }
    }
}

/// A root split of a full leaf alone keeps what a search for every key
/// gives.
proof fn lemma_small_root_split_lookups(p1: BufferPool, p2: BufferPool, root: u32, nr: u32)
    requires
        p1.wf(),
        small_tree(p1, root),
        node_at(p1, root) matches Some(c) && c.is_leaf && c.keys.len() >= MAX_KEYS_PER_NODE,
        root_split(p1, p2, root, nr),
    ensures
        forall|k2: KeyView, v: Option<u64>| #[trigger] found(p2, nr, k2, v) <==> found(p1, root, k2, v),
{
    let c = node_at(p1, root)->0;
    assert forall|k2: KeyView, v: Option<u64>| #[trigger] found(p2, nr, k2, v) <==> found(p1, root, k2, v) by {
        if found(p1, root, k2, v) {
            lemma_root_split_keeps_lookups(p1, p2, root, nr, k2, v);
        }
        if found(p2, nr, k2, v) {
            let w = leaf_get(c, k2);
            assert(descends(p1, root, k2, seq![root]));
            assert(found(p1, root, k2, w));
            lemma_root_split_keeps_lookups(p1, p2, root, nr, k2, w);
            lemma_found_unique(p2, nr, k2, w, v);
        }
    }
}

/// In a small tree of two levels, splitting the full leaf a key's search
/// reaches alone keeps what a search for every key gives, and the key's
/// search then ends in a leaf.
#[verifier::spinoff_prover]
#[verifier::rlimit(100)]
proof fn lemma_small_child_split_lookups(p0: BufferPool, mid: BufferPool, root: u32, key: KeyView)
    requires
        p0.wf(),
        small_tree(p0, root),
        node_at(p0, root) matches Some(r) && !r.is_leaf && r.keys.len() < MAX_KEYS_PER_NODE && (node_at(
            p0,
            r.children[child_index(r.keys, key)],
        )->0).keys.len() >= MAX_KEYS_PER_NODE,
        split_content(p0, mid, root, child_index((node_at(p0, root)->0).keys, key), p0.disk().len() as u32),
    ensures
        forall|k2: KeyView, v: Option<u64>| #[trigger] found(mid, root, k2, v) <==> found(p0, root, k2, v),
        ({
            let q = node_at(mid, root)->0;
            leaf_at(mid, q.children[child_index(q.keys, key)])
        }),
{
    let r = node_at(p0, root)->0;
    let ci = child_index(r.keys, key);
    lemma_upper_from_bounds(r.keys, key, 0);
    lemma_parsed_shape((p0.content(root)->0).1);
    let cid = r.children[ci];
    let c = node_at(p0, cid)->0;
    let m = (c.keys.len() / 2) as int;
    let sep = c.keys[m];
    let f = p0.disk().len() as u32;
    assert(child_fits(r, ci, c));
    if ci < r.keys.len() {
        assert(key_lt(sep, r.keys[ci]));
        lemma_key_order(sep, r.keys[ci], sep);
    }
    lemma_leaf_halves(c, root);
    assert(node_at(mid, cid) == Some(normalized(left_half(c))));
    assert(node_at(mid, f) == Some(normalized(right_half(c, root))));
    lemma_route_with_separator(r, ci, sep, f, key);
    assert(only_child_of(p0, root, cid, root, ci)) by {
        assert forall|k: KeyView, a: Seq<u32>, t: int|
            #![trigger descends(p0, root, k, a), a[t]]
            descends(p0, root, k, a) && 0 <= t < a.len() && a[t] == cid implies t > 0 && a[t - 1] == root
                && child_index(r.keys, k) == ci by {
            lemma_small_tree_path(p0, root, k);
            let ck = child_index(r.keys, k);
            assert(a == seq![root, r.children[ck]]);
            if t == 1 && ck != ci {
                if ck < ci {
                    assert(r.children[ck] != r.children[ci]);
                } else {
                    assert(r.children[ci] != r.children[ck]);
                }
            }
        }
    }
    assert forall|k2: KeyView, v: Option<u64>| #[trigger] found(mid, root, k2, v) <==> found(p0, root, k2, v) by {
        if found(p0, root, k2, v) {
            lemma_child_split_keeps_lookups(p0, mid, root, root, ci, f, k2, v);
        }
        if found(mid, root, k2, v) {
            lemma_small_tree_path(p0, root, k2);
            let w = leaf_get(node_at(p0, r.children[child_index(r.keys, k2)])->0, k2);
            lemma_child_split_keeps_lookups(p0, mid, root, root, ci, f, k2, w);
            lemma_found_unique(mid, root, k2, w, v);
        }
    }
}

/// The pages after the leaf child that a search for `key` goes to from the
/// inner node of page `parent` is split (see [`split_content`], giving
/// `mid`) and `key` is put, with `value`, into the half it goes to (giving
/// `fin`): where that half is a leaf, it lacked the key, it gets it, and no
/// other page changes.
pub open spec fn split_then_leaf_insert(
    old: BufferPool,
    mid: BufferPool,
    fin: BufferPool,
    parent: u32,
    key: KeyView,
    value: u64,
) -> bool {
    let p = node_at(old, parent)->0;
    let q = node_at(mid, parent)->0;
    let tg = q.children[child_index(q.keys, key)];
    &&& mid.wf()
    &&& split_content(old, mid, parent, child_index(p.keys, key), old.disk().len() as u32)
    &&& leaf_at(mid, tg) ==> (leaf_get(node_at(mid, tg)->0, key) is None && node_at(fin, tg) == Some(
        leaf_with(node_at(mid, tg)->0, key, value),
    ) && forall|x: u32| x != tg ==> #[trigger] node_at(fin, x) == node_at(mid, x))
}

/// The pages after the leaf child that a search for `key` goes to from the
/// inner node of page `parent` is split (see [`split_content`], giving
/// `mid`) and nothing more is written (giving `fin`): where the half the key
/// goes to is a leaf, every page holds what it held after the split.
pub open spec fn split_then_kept(old: BufferPool, mid: BufferPool, fin: BufferPool, parent: u32, key: KeyView) -> bool {
    let p = node_at(old, parent)->0;
    let q = node_at(mid, parent)->0;
    let tg = q.children[child_index(q.keys, key)];
    &&& mid.wf()
    &&& split_content(old, mid, parent, child_index(p.keys, key), old.disk().len() as u32)
    &&& leaf_at(mid, tg) ==> forall|x: u32| #[trigger] node_at(fin, x) == node_at(mid, x)
}

#[verifier::spinoff_prover]
#[verifier::rlimit(100)]
fn insert_non_full(
    pool: &mut BufferPool,
    page_id: u32,
    key: IndexKey,
    value: u64,
    ancestors: &Vec<u32>,
    fuel: u64,
) -> (r: Result<(), DbError>)
    requires
        old(pool).wf(),
        forall|i: int| 0 <= i < ancestors@.len() ==> #[trigger] ancestors@[i] < old(pool).disk().len(),
    ensures
        final(pool).wf(),
        final(pool).capacity_spec() == old(pool).capacity_spec(),
        final(pool).disk().len() >= old(pool).disk().len(),
        old(pool).coherent() ==> final(pool).coherent(),
        old(pool).idle() ==> final(pool).idle(),
        r is Ok ==> (old(pool).coherent() ==> finds(*final(pool), page_id, key@, value) && forall|i: int|
            0 <= i < ancestors@.len() ==> #[trigger] final(pool).content(ancestors@[i]) == old(
                pool,
            ).content(ancestors@[i])),
        r matches Err(e) ==> e.kind() == ErrorKind::InvalidOperation || e.kind() == ErrorKind::Corruption
            || e.kind() == ErrorKind::ConstraintViolation,
        (old(pool).can_run(3) && fuel > 0 && !ancestors@.contains(page_id) && (node_at(*old(pool), page_id) matches Some(n)
            && n.is_leaf && lower_from(n.keys, key@, 0) < n.keys.len() && n.keys[lower_from(n.keys, key@, 0)] == key@))
            ==> (r matches Err(e) && e.kind() == ErrorKind::ConstraintViolation && forall|x: u32|
            #[trigger] final(pool).content(x) == old(pool).content(x)),
        (old(pool).can_run(9) && fuel > 0 && !ancestors@.contains(page_id) && (node_at(*old(pool), page_id) matches Some(n)
            && n.is_leaf && !(lower_from(n.keys, key@, 0) < n.keys.len() && n.keys[lower_from(n.keys, key@, 0)]
            == key@) && node_encodable(leaf_with(n, key@, value)))) ==> r is Ok,
        (r is Ok && old(pool).coherent() && (node_at(*old(pool), page_id) matches Some(n) && n.is_leaf)) ==> (
        node_at(*final(pool), page_id) == Some(leaf_with(node_at(*old(pool), page_id)->0, key@, value))
            && forall|x: u32| x != page_id ==> #[trigger] final(pool).content(x) == old(pool).content(x)),
        ({
            let w = quiet_walk(*old(pool), page_id, key@, fuel as nat);
            let l = w->0;
            (r is Ok && old(pool).coherent() && w is Some) ==> (leaf_get(node_at(*old(pool), l)->0, key@) is None
                && node_at(*final(pool), l) == Some(leaf_with(node_at(*old(pool), l)->0, key@, value)) && forall|x: u32|
                x != l ==> #[trigger] final(pool).content(x) == old(pool).content(x))
        }),
        ({
            let w = quiet_walk(*old(pool), page_id, key@, fuel as nat);
            (old(pool).coherent() && w is Some && leaf_get(node_at(*old(pool), w->0)->0, key@) is Some) ==> (r is Err
                && forall|x: u32| #[trigger] final(pool).content(x) == old(pool).content(x))
        }),
        ({
            let p = node_at(*old(pool), page_id)->0;
            let ci = child_index(p.keys, key@);
            (r is Ok && old(pool).coherent() && node_at(*old(pool), page_id) is Some && !p.is_leaf && ci
                < p.children.len() && p.children[ci] != page_id && leaf_at(*old(pool), p.children[ci]) && (node_at(
                *old(pool),
                p.children[ci],
            )->0).keys.len() >= MAX_KEYS_PER_NODE) ==> exists|mid: BufferPool|
                #[trigger] split_then_leaf_insert(*old(pool), mid, *final(pool), page_id, key@, value)
        }),
        ({
            let w = quiet_walk(*old(pool), page_id, key@, fuel as nat);
            (r is Err && old(pool).coherent() && w is Some) ==> forall|x: u32|
                #[trigger] final(pool).content(x) == old(pool).content(x)
        }),
        ({
            let p = node_at(*old(pool), page_id)->0;
            let ci = child_index(p.keys, key@);
            (r matches Err(e) && e.kind() == ErrorKind::ConstraintViolation && old(pool).coherent() && node_at(
                *old(pool),
                page_id,
            ) is Some && !p.is_leaf && ci < p.children.len() && p.children[ci] != page_id && leaf_at(
                *old(pool),
                p.children[ci],
            ) && (node_at(*old(pool), p.children[ci])->0).keys.len() >= MAX_KEYS_PER_NODE) ==> exists|mid: BufferPool|
                #[trigger] split_then_kept(*old(pool), mid, *final(pool), page_id, key@)
        }),
    decreases fuel,
{
    if fuel == 0 {
        return Err(corrupt("index walk does not end"));
    }
    if contains_page(ancestors.as_slice(), page_id) {
        return Err(corrupt("index pages form a cycle"));
    }
    let ghost p0 = *pool;
    let mut node = load_node(pool, page_id)?;
    proof {
        lemma_parsed_shape((p0.content(page_id)->0).1);
    }
    if node.is_leaf {
        let idx = node.lower_bound(&key);
        proof {
            if p0.coherent() {
                assert(quiet_walk(p0, page_id, key@, fuel as nat) == Some(page_id));
            }
        }
        if idx < node.keys.len() && node.keys[idx].compare(&key) == KeyOrder::Equal {
            return Err(DbError::constraint_violation("duplicate key"));
        }
        let ghost nv = node@;
        let ghost kv = key@;
        proof {
            if idx < nv.keys.len() {
                assert(nv.keys[idx as int] == node.keys@[idx as int]@);
            }
            assert(leaf_get(nv, kv) is None);
        }
        node.keys.insert(idx, key);
        node.values.insert(idx, value);
        let ghost p1 = *pool;
        proof {
            assert(key_views(node.keys@) =~= nv.keys.insert(idx as int, kv));
            if nv.values.len() >= idx {
                assert(node@.values =~= nv.values.insert(idx as int, value));
            }
            if p0.coherent() {
                assert(p1.content(page_id) is Some);
            }
        }
        save_node(pool, &node)?;
        proof {
            if p0.coherent() {
                let n2 = node@;
                assert(key_views(node.keys@) =~= nv.keys.insert(idx as int, kv));
                assert(well_shaped(n2));
                lemma_node_roundtrip(n2);
                assert(node_at(*pool, page_id) == Some(n2));
                lemma_key_order(kv, kv, kv);
                assert forall|i: int| 0 <= i < idx implies key_lt(#[trigger] n2.keys[i], kv) by {
                    assert(n2.keys[i] == nv.keys[i]);
                }
                lemma_lower_from(n2.keys, kv, 0, idx as int);
                assert(leaf_get(n2, kv) == Some(value));
                let path = seq![page_id];
                assert(descends(*pool, page_id, kv, path));
                assert forall|i: int| 0 <= i < ancestors@.len() implies #[trigger] pool.content(
                    ancestors@[i],
                ) == p0.content(ancestors@[i]) by {
                    assert(ancestors@[i] != page_id);
                }
            }
        }
        return Ok(());
    }
    let idx = node.upper_bound(&key);
    if idx >= node.children.len() {
        return Err(invalid("child index out of bounds"));
    }
    let child_page_id = node.children[idx];
    let child = load_node(pool, child_page_id)?;
    let next = with_page(ancestors, page_id);
    let ghost kv = key@;
    proof {
        p0.lemma_content_in_file(page_id);
    }
    proof {
        if p0.coherent() {
            assert(node_at(p0, page_id) == Some(node@));
            assert(node_at(p0, child_page_id) == Some(child@));
            if child.keys@.len() >= MAX_KEYS_PER_NODE {
                assert(quiet_walk(p0, page_id, kv, fuel as nat) is None);
            } else {
                assert(quiet_walk(p0, page_id, kv, fuel as nat) == quiet_walk(p0, child_page_id, kv, (fuel - 1) as nat));
            }
        }
    }
    if child.keys.len() >= MAX_KEYS_PER_NODE {
        if child_page_id == page_id || contains_page(ancestors.as_slice(), child_page_id) {
            return Err(corrupt("index pages form a cycle"));
        }
        let ghost p2 = *pool;
        let fresh = split_child(pool, page_id, idx)?;
        let ghost p3 = *pool;
        let parent_after = load_node(pool, page_id)?;
        let new_idx = parent_after.upper_bound(&key);
        if new_idx >= parent_after.children.len() {
            return Err(invalid("child index out of bounds after split"));
        }
        let target = parent_after.children[new_idx];
        let ghost p4 = *pool;
        proof {
            assert forall|i: int| 0 <= i < next@.len() implies #[trigger] next@[i] < p4.disk().len() by {
                if i < ancestors@.len() {
                    assert(next@[i] == ancestors@[i]);
                }
            }
        }
        let res = insert_non_full(pool, target, key, value, &next, (fuel - 1) as u64);
        proof {
            if p0.coherent() && res is Ok && child@.is_leaf {
                assert forall|x: u32| #[trigger] p2.content(x) == p0.content(x) by {}
                assert(split_content(p0, p3, page_id, idx as int, p0.disk().len() as u32));
                assert(node_at(p3, page_id) == Some(parent_after@));
                if leaf_at(p3, target) {
                    assert(node_at(p4, target) == node_at(p3, target));
                    assert(quiet_walk(p4, target, kv, (fuel - 1) as nat) == Some(target));
                    assert forall|x: u32| x != target implies #[trigger] node_at(*pool, x) == node_at(p3, x) by {
                        assert(pool.content(x) == p4.content(x));
                    }
                }
                assert(split_then_leaf_insert(p0, p3, *pool, page_id, kv, value));
            }
            if p0.coherent() && child@.is_leaf && (res matches Err(ref e) && e.kind() == ErrorKind::ConstraintViolation) {
                assert forall|x: u32| #[trigger] p2.content(x) == p0.content(x) by {}
                assert(split_content(p0, p3, page_id, idx as int, p0.disk().len() as u32));
                assert(node_at(p3, page_id) == Some(parent_after@));
                if leaf_at(p3, target) {
                    assert(node_at(p4, target) == node_at(p3, target));
                    assert(quiet_walk(p4, target, kv, (fuel - 1) as nat) == Some(target));
                    assert forall|x: u32| #[trigger] node_at(*pool, x) == node_at(p3, x) by {
                        assert(pool.content(x) == p4.content(x));
                    }
                }
                assert(split_then_kept(p0, p3, *pool, page_id, kv));
            }
            if p0.coherent() && res is Ok {
                assert(pool.content(next@[next@.len() - 1]) == p4.content(next@[next@.len() - 1]));
                assert(node_at(*pool, page_id) == Some(parent_after@));
                assert(steps_to(*pool, page_id, kv, target));
                lemma_finds_through(*pool, page_id, kv, target, value);
                assert forall|i: int| 0 <= i < ancestors@.len() implies #[trigger] pool.content(
                    ancestors@[i],
                ) == p0.content(ancestors@[i]) by {
                    let a = ancestors@[i];
                    assert(next@[i] == a);
                    assert(a != page_id && a != child_page_id && a != fresh);
                    assert(p3.content(a) == p2.content(a));
                }
            }
        }
        return res;
    }
    let ghost p4 = *pool;
    proof {
        assert forall|i: int| 0 <= i < next@.len() implies #[trigger] next@[i] < p4.disk().len() by {
            if i < ancestors@.len() {
                assert(next@[i] == ancestors@[i]);
            }
        }
    }
    proof {
        if p0.coherent() {
            lemma_quiet_walk_same(p4, p0, child_page_id, kv, (fuel - 1) as nat);
        }
    }
    let res = insert_non_full(pool, child_page_id, key, value, &next, (fuel - 1) as u64);
    proof {
        if p0.coherent() {
            let w = quiet_walk(p0, child_page_id, kv, (fuel - 1) as nat);
            if w is Some {
                assert(node_at(p4, w->0) == node_at(p0, w->0));
            }
            if res is Err && w is Some {
                assert forall|x: u32| #[trigger] pool.content(x) == p0.content(x) by {
                    assert(pool.content(x) == p4.content(x));
                }
            }
        }
        if p0.coherent() && res is Ok {
            assert(pool.content(next@[next@.len() - 1]) == p4.content(next@[next@.len() - 1]));
            assert(node_at(*pool, page_id) == Some(node@));
            assert(steps_to(*pool, page_id, kv, child_page_id));
            lemma_finds_through(*pool, page_id, kv, child_page_id, value);
            assert forall|i: int| 0 <= i < ancestors@.len() implies #[trigger] pool.content(
                ancestors@[i],
            ) == p0.content(ancestors@[i]) by {
                assert(next@[i] == ancestors@[i]);
            }
        }
    }
    res
}

/// The pages after the root `root` is split under the fresh root `nr` (see
/// [`split_root`]): the fresh root is an inner node with the old root's
/// middle key and two children, the old root's page, which keeps its left
/// half, and the page after the fresh root, which takes the right half; no
/// other page changes.
pub open spec fn root_split(old: BufferPool, new: BufferPool, root: u32, nr: u32) -> bool {
    let c = node_at(old, root)->0;
    let mid = (c.keys.len() / 2) as int;
    let f = (nr + 1) as u32;
    &&& node_at(old, root) is Some
    &&& 0 <= mid < c.keys.len()
    &&& nr == old.disk().len()
    &&& nr < u32::MAX
    &&& node_at(new, nr) matches Some(t) && !t.is_leaf && t.keys == seq![c.keys[mid]] && t.children == seq![root, f]
    &&& node_at(new, root) == Some(normalized(left_half(c)))
    &&& node_at(new, f) == Some(normalized(right_half(c, nr)))
    &&& forall|x: u32| x != nr && x != f && x != root ==> #[trigger] new.content(x) == old.content(x)
}

/// Puts a fresh inner node above the root, with the old root as its only
/// child, and splits the old root under it; the fresh node, at the end of
/// the file, becomes the root (see [`root_split`]). A page that cannot be
/// read, written or added, or a root with no keys, is an error, and the
/// root stays.
#[verifier::rlimit(60)]
fn split_root(pool: &mut BufferPool, root_page_id: &mut u32) -> (r: Result<(), DbError>)
    requires
        old(pool).wf(),
    ensures
        final(pool).wf(),
        final(pool).capacity_spec() == old(pool).capacity_spec(),
        final(pool).disk().len() >= old(pool).disk().len(),
        old(pool).coherent() ==> final(pool).coherent(),
        old(pool).idle() ==> final(pool).idle(),
        r is Ok ==> *final(root_page_id) == old(pool).disk().len(),
        r is Err ==> *final(root_page_id) == *old(root_page_id),
        r matches Err(e) ==> e.kind() == ErrorKind::InvalidOperation || e.kind() == ErrorKind::Corruption,
        (r is Ok && old(pool).coherent()) ==> root_split(*old(pool), *final(pool), *old(root_page_id), *final(root_page_id)),
{
    let ghost p0 = *pool;
    let new_root_page_id = allocate_node(pool, false)?;
    let old_root_page_id = *root_page_id;
    let ghost p1 = *pool;
    let mut new_root = load_node(pool, new_root_page_id)?;
    proof {
        lemma_empty_node(false);
    }
    new_root.children = vec![old_root_page_id];
    let ghost nv = new_root@;
    let ghost p2 = *pool;
    save_node(pool, &new_root)?;
    let ghost p3 = *pool;
    proof {
        lemma_node_roundtrip(nv);
        if p0.coherent() {
            assert(node_at(p1, new_root_page_id) == parse_node(empty_node_body(false)));
            assert(nv.children =~= seq![old_root_page_id]);
            assert(well_shaped(nv));
        }
    }
    split_child(pool, new_root_page_id, 0)?;
    *root_page_id = new_root_page_id;
    proof {
        if p0.coherent() {
            let n = new_root_page_id;
            assert(node_at(p3, n) == Some(nv));
            assert(nv.children[0] == old_root_page_id);
            if p0.content(old_root_page_id) is Some {
                p0.lemma_content_in_file(old_root_page_id);
            }
            assert forall|x: u32| x != n implies #[trigger] p3.content(x) == p0.content(x) by {
                assert(p1.content(x) == p0.content(x));
                assert(p2.content(x) == p1.content(x));
            }
            assert(node_at(p3, old_root_page_id) == node_at(p0, old_root_page_id));
            assert(with_separator(nv, 0, (node_at(p0, old_root_page_id)->0).keys[((node_at(p0, old_root_page_id)->0).keys.len() / 2) as int], (n + 1) as u32).keys
                =~= seq![(node_at(p0, old_root_page_id)->0).keys[((node_at(p0, old_root_page_id)->0).keys.len() / 2) as int]]);
            assert(with_separator(nv, 0, (node_at(p0, old_root_page_id)->0).keys[((node_at(p0, old_root_page_id)->0).keys.len() / 2) as int], (n + 1) as u32).children
                =~= seq![old_root_page_id, (n + 1) as u32]);
        }
    }
    Ok(())
}

/// A search never comes back to a page: the pages of a path down to a
/// leaf are all different.
pub proof fn lemma_descends_distinct(pool: BufferPool, root: u32, key: KeyView, a: Seq<u32>)
    requires
        descends(pool, root, key, a),
    ensures
        forall|i: int, j: int| 0 <= i < j < a.len() ==> a[i] != a[j],
{
    assert forall|i: int, j: int| 0 <= i < j < a.len() implies a[i] != a[j] by {
        if a[i] == a[j] {
            lemma_repeat_follows(pool, root, key, a, i, j, a.len() - 1 - j);
            let t = a.len() - 1 - j;
            assert(steps_to(pool, a[i + t], key, a[i + t + 1]));
            assert(leaf_at(pool, a.last()));
        }
    }
}

/// A search goes one way from a page.
proof fn lemma_step_unique(pool: BufferPool, x: u32, key: KeyView, y: u32, z: u32)
    requires
        steps_to(pool, x, key, y),
        steps_to(pool, x, key, z),
    ensures
        y == z,
{
}

#[verifier::spinoff_prover]
#[verifier::rlimit(100)]
proof fn lemma_repeat_follows(pool: BufferPool, root: u32, key: KeyView, a: Seq<u32>, i: int, j: int, t: int)
    requires
        descends(pool, root, key, a),
        0 <= i < j < a.len(),
        a[i] == a[j],
        0 <= t <= a.len() - 1 - j,
    ensures
        a[i + t] == a[j + t],
    decreases t,
{
    if t > 0 {
        lemma_repeat_follows(pool, root, key, a, i, j, t - 1);
        lemma_step_unique(pool, a[i + t - 1], key, a[i + t], a[j + t]);
    }
}

/// The first position from `j` on whose key sorts after `key`: every key
/// before it from `j` does not.
proof fn lemma_upper_from_bounds(keys: Seq<KeyView>, key: KeyView, j: int)
    requires
        0 <= j <= keys.len(),
    ensures
        j <= upper_from(keys, key, j) <= keys.len(),
        forall|i: int| j <= i < upper_from(keys, key, j) ==> !key_lt(key, #[trigger] keys[i]),
        upper_from(keys, key, j) < keys.len() ==> key_lt(key, keys[upper_from(keys, key, j)]),
    decreases keys.len() - j,
{
    if j < keys.len() && !key_lt(key, keys[j]) {
        lemma_upper_from_bounds(keys, key, j + 1);
    }
}

/// A key before the middle key of sorted keys goes down the same way in
/// the left half.
proof fn lemma_child_left(keys: Seq<KeyView>, key: KeyView, m: int)
    requires
        keys_sorted(keys),
        0 <= m < keys.len(),
        key_lt(key, keys[m]),
    ensures
        child_index(keys, key) <= m,
        child_index(keys.subrange(0, m + 1), key) == child_index(keys, key),
{
    lemma_upper_from_bounds(keys, key, 0);
    let p = upper_from(keys, key, 0);
    let pre = keys.subrange(0, m + 1);
    assert forall|i: int| 0 <= i < p implies !key_lt(key, #[trigger] pre[i]) by {
        assert(pre[i] == keys[i]);
    }
    lemma_upper_from(pre, key, 0, p);
}

/// A key not before the middle key of sorted keys goes down the same way
/// in the right half, past the keys up to the middle one.
proof fn lemma_child_right(keys: Seq<KeyView>, key: KeyView, m: int)
    requires
        keys_sorted(keys),
        0 <= m < keys.len(),
        !key_lt(key, keys[m]),
    ensures
        child_index(keys, key) >= m + 1,
        child_index(keys.subrange(m + 1, keys.len() as int), key) == child_index(keys, key) - (m + 1),
{
    lemma_upper_from_bounds(keys, key, 0);
    let p = upper_from(keys, key, 0);
    assert forall|i: int| 0 <= i <= m implies !key_lt(key, #[trigger] keys[i]) by {
        if i < m {
            lemma_key_order(key, keys[i], keys[m]);
            assert(key_lt(keys[i], keys[m]));
        }
    }
    if p <= m {
        assert(key_lt(key, keys[p]));
    }
    let suf = keys.subrange(m + 1, keys.len() as int);
    assert forall|i: int| 0 <= i < p - (m + 1) implies !key_lt(key, #[trigger] suf[i]) by {
        assert(suf[i] == keys[i + m + 1]);
    }
    if p < keys.len() {
        assert(suf[p - (m + 1)] == keys[p]);
    }
    lemma_upper_from(suf, key, 0, p - (m + 1));
}

/// A key before the middle key of a sorted leaf is held the same by its
/// left half.
proof fn lemma_leaf_left(c: NodeView, key: KeyView, m: int)
    requires
        keys_sorted(c.keys),
        c.values.len() == c.keys.len(),
        0 <= m < c.keys.len(),
        key_lt(key, c.keys[m]),
    ensures
        leaf_get(NodeView { keys: c.keys.subrange(0, m), values: c.values.subrange(0, m), ..c }, key) == leaf_get(c, key),
{
    let keys = c.keys;
    lemma_lower_from_bounds(keys, key, 0);
    lemma_key_order(key, keys[m], key);
    let p = lower_from(keys, key, 0);
    assert(p <= m);
    let pre = keys.subrange(0, m);
    assert forall|i: int| 0 <= i < p implies key_lt(#[trigger] pre[i], key) by {
        assert(pre[i] == keys[i]);
    }
    if p < m {
        assert(pre[p] == keys[p]);
    }
    lemma_lower_from(pre, key, 0, p);
}

/// A key not before the middle key of a sorted leaf is held the same by its
/// right half.
proof fn lemma_leaf_right(c: NodeView, key: KeyView, m: int)
    requires
        keys_sorted(c.keys),
        c.values.len() == c.keys.len(),
        0 <= m < c.keys.len(),
        !key_lt(key, c.keys[m]),
    ensures
        leaf_get(
            NodeView {
                keys: c.keys.subrange(m, c.keys.len() as int),
                values: c.values.subrange(m, c.values.len() as int),
                ..c
            },
            key,
        ) == leaf_get(c, key),
{
    let keys = c.keys;
    lemma_lower_from_bounds(keys, key, 0);
    let p = lower_from(keys, key, 0);
    assert forall|i: int| 0 <= i < m implies key_lt(#[trigger] keys[i], key) by {
        assert(key_lt(keys[i], keys[m]));
        lemma_key_order(keys[i], keys[m], key);
        lemma_key_order(keys[m], key, keys[m]);
    }
    if p < m {
        assert(key_lt(keys[p], key));
    }
    let suf = keys.subrange(m, keys.len() as int);
    assert forall|i: int| 0 <= i < p - m implies key_lt(#[trigger] suf[i], key) by {
        assert(suf[i] == keys[i + m]);
    }
    if p < keys.len() {
        assert(suf[p - m] == keys[p]);
    }
    lemma_lower_from(suf, key, 0, p - m);
}

/// A sorted leaf split at `m` holds every key in the half a search for it
/// goes to as it held it.
proof fn lemma_half_leaf_get(c: NodeView, key: KeyView, m: int, nr: u32)
    requires
        keys_sorted(c.keys),
        well_shaped(c),
        c.is_leaf,
        m == (c.keys.len() / 2) as int,
        0 <= m < c.keys.len(),
    ensures
        key_lt(key, c.keys[m]) ==> leaf_get(normalized(left_half(c)), key) == leaf_get(c, key),
        !key_lt(key, c.keys[m]) ==> leaf_get(normalized(right_half(c, nr)), key) == leaf_get(c, key),
{
    if key_lt(key, c.keys[m]) {
        lemma_leaf_left(c, key, m);
        let h = normalized(left_half(c));
        let w = NodeView { keys: c.keys.subrange(0, m), values: c.values.subrange(0, m), ..c };
        assert(h.keys =~= w.keys);
        assert(h.values =~= w.values);
    } else {
        lemma_leaf_right(c, key, m);
        let h = normalized(right_half(c, nr));
        let w = NodeView {
            keys: c.keys.subrange(m, c.keys.len() as int),
            values: c.values.subrange(m, c.values.len() as int),
            ..c
        };
        assert(h.keys =~= w.keys);
        assert(h.values =~= w.values);
    }
}

/// A sorted inner node split at `m` sends every key, from the half a
/// search for it goes to, down to the child it went to before.
proof fn lemma_half_child(c: NodeView, key: KeyView, m: int, nr: u32)
    requires
        keys_sorted(c.keys),
        well_shaped(c),
        !c.is_leaf,
        m == (c.keys.len() / 2) as int,
        0 <= m < c.keys.len(),
    ensures
        key_lt(key, c.keys[m]) ==> ({
            let h = normalized(left_half(c));
            &&& !h.is_leaf
            &&& child_index(h.keys, key) < h.children.len()
            &&& h.children[child_index(h.keys, key)] == c.children[child_index(c.keys, key)]
        }),
        !key_lt(key, c.keys[m]) ==> ({
            let h = normalized(right_half(c, nr));
            &&& !h.is_leaf
            &&& child_index(h.keys, key) < h.children.len()
            &&& h.children[child_index(h.keys, key)] == c.children[child_index(c.keys, key)]
        }),
{
    let ci = child_index(c.keys, key);
    lemma_upper_from_bounds(c.keys, key, 0);
    if key_lt(key, c.keys[m]) {
        lemma_child_left(c.keys, key, m);
        let l = left_half(c);
        let h = normalized(l);
        assert(h.keys == c.keys.subrange(0, m + 1));
        assert(h.children.subrange(0, m + 1) =~= c.children.subrange(0, m + 1));
        assert(h.children[ci] == h.children.subrange(0, m + 1)[ci]);
    } else {
        lemma_child_right(c.keys, key, m);
        let r = right_half(c, nr);
        assert(well_shaped(r));
        lemma_normalized(r);
        assert(r.children[ci - (m + 1)] == c.children[ci]);
    }
}

/// A path down stays a path down where the pages on it read the same.
proof fn lemma_descends_same(p1: BufferPool, p2: BufferPool, key: KeyView, q: Seq<u32>)
    requires
        descends(p1, q[0], key, q),
        forall|j: int| 0 <= j < q.len() ==> node_at(p2, #[trigger] q[j]) == node_at(p1, q[j]),
    ensures
        descends(p2, q[0], key, q),
{
    assert forall|j: int| 0 <= j < q.len() - 1 implies steps_to(p2, #[trigger] q[j], key, q[j + 1]) by {
        assert(steps_to(p1, q[j], key, q[j + 1]));
        assert(node_at(p2, q[j]) == node_at(p1, q[j]));
    }
    assert(node_at(p2, q[q.len() - 1]) == node_at(p1, q[q.len() - 1]));
}

/// The rest of a path down, after its first page, is a path down.
proof fn lemma_descends_tail(pool: BufferPool, key: KeyView, a: Seq<u32>)
    requires
        descends(pool, a[0], key, a),
        a.len() > 1,
    ensures
        descends(pool, a[1], key, a.subrange(1, a.len() as int)),
{
    let q = a.subrange(1, a.len() as int);
    assert forall|j: int| 0 <= j < q.len() - 1 implies steps_to(pool, #[trigger] q[j], key, q[j + 1]) by {
        assert(q[j] == a[j + 1] && q[j + 1] == a[j + 2]);
        assert(steps_to(pool, a[j + 1], key, a[j + 2]));
    }
    assert(q.last() == a.last());
}

/// A step down followed by a path down is a path down.
proof fn lemma_descends_cons(pool: BufferPool, x: u32, key: KeyView, q: Seq<u32>)
    requires
        descends(pool, q[0], key, q),
        steps_to(pool, x, key, q[0]),
    ensures
        descends(pool, x, key, seq![x] + q),
        (seq![x] + q).last() == q.last(),
{
    let p = seq![x] + q;
    assert forall|j: int| 0 <= j < p.len() - 1 implies steps_to(pool, #[trigger] p[j], key, p[j + 1]) by {
        if j > 0 {
            assert(p[j] == q[j - 1] && p[j + 1] == q[j]);
            assert(steps_to(pool, q[j - 1], key, q[j]));
        }
    }
    assert(p.last() == q.last());
}

/// A root split loses no key: where a search for `key` from the old root
/// gives `v`, and the old root's keys are sorted, a search for `key` from
/// the fresh root after the split (see [`root_split`]) gives `v` too.
#[verifier::spinoff_prover]
#[verifier::rlimit(100)]
pub proof fn lemma_root_split_keeps_lookups(
    old: BufferPool,
    new: BufferPool,
    root: u32,
    nr: u32,
    key: KeyView,
    v: Option<u64>,
)
    requires
        old.wf(),
        root_split(old, new, root, nr),
        keys_sorted((node_at(old, root)->0).keys),
        found(old, root, key, v),
    ensures
        found(new, nr, key, v),
{
    let a = choose|path: Seq<u32>|
        #[trigger] descends(old, root, key, path) && leaf_get(node_at(old, path.last())->0, key) == v;
    let c = node_at(old, root)->0;
    lemma_parsed_shape((old.content(root)->0).1);
    let m = (c.keys.len() / 2) as int;
    let sep = c.keys[m];
    let f = (nr + 1) as u32;
    lemma_descends_distinct(old, root, key, a);
    if old.content(nr) is Some {
        old.lemma_content_in_file(nr);
    }
    if old.content(f) is Some {
        old.lemma_content_in_file(f);
    }
    let left = key_lt(key, sep);
    let side: u32 = if left { root } else { f };
    let half = if left { normalized(left_half(c)) } else { normalized(right_half(c, nr)) };
    assert(node_at(new, side) == Some(half));
    let t = node_at(new, nr)->0;
    if left {
        lemma_upper_from(t.keys, key, 0, 0);
    } else {
        lemma_upper_from(t.keys, key, 0, 1);
    }
    assert(steps_to(new, nr, key, side));
    if a.len() == 1 {
        lemma_half_leaf_get(c, key, m, nr);
        let q = seq![side];
        assert(descends(new, side, key, q));
        lemma_descends_cons(new, nr, key, q);
        assert(descends(new, nr, key, seq![nr] + q));
    } else {
        assert(steps_to(old, a[0], key, a[1]));
        lemma_half_child(c, key, m, nr);
        assert(steps_to(new, side, key, a[1]));
        let tail = a.subrange(1, a.len() as int);
        lemma_descends_tail(old, key, a);
        assert forall|j: int| 0 <= j < tail.len() implies node_at(new, #[trigger] tail[j]) == node_at(old, tail[j]) by {
            assert(tail[j] == a[j + 1]);
            assert(a[j + 1] != a[0]);
            if j + 1 < a.len() - 1 {
                assert(steps_to(old, a[j + 1], key, a[j + 2]));
            } else {
                assert(leaf_at(old, a.last()));
            }
            assert(new.content(tail[j]) == old.content(tail[j]));
        }
        lemma_descends_same(old, new, key, tail);
        lemma_descends_cons(new, side, key, tail);
        let q = seq![side] + tail;
        lemma_descends_cons(new, nr, key, q);
        assert(descends(new, nr, key, seq![nr] + q));
        assert(tail.last() == a.last());
    }
}

/// With the key `sep` put in at `idx` and the page `f` after the child at
/// `idx`, an inner node of sorted keys sends every key down as before: to
/// the same child, or, for a key that went to the child at `idx` and does
/// not sort before `sep`, to `f`. The key put in does not sort after the
/// key that was at `idx`.
proof fn lemma_route_with_separator(pn: NodeView, idx: int, sep: KeyView, f: u32, k: KeyView)
    requires
        keys_sorted(pn.keys),
        well_shaped(pn),
        !pn.is_leaf,
        0 <= idx < pn.children.len(),
        idx < pn.keys.len() ==> !key_lt(pn.keys[idx], sep),
    ensures
        ({
            let ci = child_index(pn.keys, k);
            let q = with_separator(pn, idx, sep, f);
            let qi = child_index(q.keys, k);
            &&& ci < pn.children.len()
            &&& qi < q.children.len()
            &&& ci != idx ==> q.children[qi] == pn.children[ci]
            &&& (ci == idx && key_lt(k, sep)) ==> q.children[qi] == pn.children[idx]
            &&& (ci == idx && !key_lt(k, sep)) ==> q.children[qi] == f
        }),
{
    let keys = pn.keys;
    let ci = child_index(keys, k);
    lemma_upper_from_bounds(keys, k, 0);
    let q = with_separator(pn, idx, sep, f);
    let qk = q.keys;
    assert(qk == keys.insert(idx, sep));
    assert forall|i: int| 0 <= i < idx implies #[trigger] qk[i] == keys[i] by {}
    assert forall|i: int| idx < i < qk.len() implies #[trigger] qk[i] == keys[i - 1] by {}
    assert(qk[idx] == sep);
    if ci < idx {
        assert forall|i: int| 0 <= i < ci implies !key_lt(k, #[trigger] qk[i]) by {
            assert(qk[i] == keys[i]);
        }
        assert(qk[ci] == keys[ci]);
        lemma_upper_from(qk, k, 0, ci);
        assert(q.children[ci] == pn.children[ci]);
    } else if ci == idx {
        assert forall|i: int| 0 <= i < idx implies !key_lt(k, #[trigger] qk[i]) by {
            assert(qk[i] == keys[i]);
        }
        if key_lt(k, sep) {
            lemma_upper_from(qk, k, 0, idx);
        } else {
            assert forall|i: int| 0 <= i < idx + 1 implies !key_lt(k, #[trigger] qk[i]) by {
                if i < idx {
                    assert(qk[i] == keys[i]);
                }
            }
            if idx + 1 < qk.len() {
                assert(qk[idx + 1] == keys[idx]);
            }
            lemma_upper_from(qk, k, 0, idx + 1);
            assert(q.children[idx + 1] == f);
        }
    } else {
        assert(idx < keys.len());
        assert(!key_lt(k, keys[ci - 1]));
        assert(!key_lt(k, sep)) by {
            if key_lt(k, sep) {
                lemma_key_order(keys[idx], sep, keys[idx]);
                lemma_key_order(k, sep, keys[idx]);
                if idx < ci - 1 {
                    assert(key_lt(keys[idx], keys[ci - 1]));
                    lemma_key_order(k, keys[idx], keys[ci - 1]);
                }
            }
        }
        assert forall|i: int| 0 <= i < ci + 1 implies !key_lt(k, #[trigger] qk[i]) by {
            if i < idx {
                assert(qk[i] == keys[i]);
            } else if i > idx {
                assert(qk[i] == keys[i - 1]);
            }
        }
        if ci + 1 < qk.len() {
            assert(qk[ci + 1] == keys[ci]);
        }
        lemma_upper_from(qk, k, 0, ci + 1);
        assert(q.children[ci + 1] == pn.children[ci]);
    }
}

/// Page `c` is reached only as the child at `idx` of page `p`: every search
/// from `root` that passes `c`, for any key, comes to it from `p`, by the
/// child at `idx`.
pub open spec fn only_child_of(pool: BufferPool, root: u32, c: u32, p: u32, idx: int) -> bool {
    forall|k: KeyView, a: Seq<u32>, t: int|
        #![trigger descends(pool, root, k, a), a[t]]
        descends(pool, root, k, a) && 0 <= t < a.len() && a[t] == c ==> t > 0 && a[t - 1] == p && child_index(
            (node_at(pool, p)->0).keys,
            k,
        ) == idx
}

/// A child split loses no key: where a search for `key` from `root` gives
/// `v`, the split child (see [`split_content`]) is reached only from its
/// parent, the keys of both are sorted, and the child's middle key does not
/// sort after the parent's key after it, a search for `key` from `root`
/// after the split gives `v` too.
#[verifier::spinoff_prover]
#[verifier::rlimit(100)]
pub proof fn lemma_child_split_keeps_lookups(
    old: BufferPool,
    new: BufferPool,
    root: u32,
    p: u32,
    idx: int,
    f: u32,
    key: KeyView,
    v: Option<u64>,
)
    requires
        old.wf(),
        split_content(old, new, p, idx, f),
        keys_sorted((node_at(old, p)->0).keys),
        keys_sorted((node_at(old, (node_at(old, p)->0).children[idx])->0).keys),
        ({
            let pn = node_at(old, p)->0;
            let c = node_at(old, pn.children[idx])->0;
            idx < pn.keys.len() ==> !key_lt(pn.keys[idx], c.keys[(c.keys.len() / 2) as int])
        }),
        only_child_of(old, root, (node_at(old, p)->0).children[idx], p, idx),
        found(old, root, key, v),
    ensures
        found(new, root, key, v),
{
    let a = choose|path: Seq<u32>|
        #[trigger] descends(old, root, key, path) && leaf_get(node_at(old, path.last())->0, key) == v;
    let pn = node_at(old, p)->0;
    let cid = pn.children[idx];
    let c = node_at(old, cid)->0;
    lemma_parsed_shape((old.content(p)->0).1);
    lemma_parsed_shape((old.content(cid)->0).1);
    let m = (c.keys.len() / 2) as int;
    let sep = c.keys[m];
    lemma_descends_distinct(old, root, key, a);
    if old.content(f) is Some {
        old.lemma_content_in_file(f);
    }
    assert forall|j: int| 0 <= j < a.len() implies node_at(old, #[trigger] a[j]) is Some by {
        if j < a.len() - 1 {
            assert(steps_to(old, a[j], key, a[j + 1]));
        } else {
            assert(leaf_at(old, a.last()));
        }
    }
    if exists|t: int| 0 <= t < a.len() && a[t] == p {
        let t = choose|t: int| 0 <= t < a.len() && a[t] == p;
        assert(pn.children.len() > 0);
        assert(!pn.is_leaf);
        if t == a.len() - 1 {
            assert(leaf_at(old, a.last()));
        }
        assert(t < a.len() - 1);
        assert(steps_to(old, a[t], key, a[t + 1]));
        let ci = child_index(pn.keys, key);
        lemma_route_with_separator(pn, idx, sep, f, key);
        assert(cid != p) by {
            if cid == p {
                assert(descends(old, root, key, a) && a[t] == cid);
                assert(a[t - 1] == p);
            }
        }
        assert forall|j: int| 0 <= j < a.len() && j != t && j != t + 1 implies node_at(new, #[trigger] a[j])
            == node_at(old, a[j]) by {
            assert(a[j] != p);
            if a[j] == cid {
                assert(descends(old, root, key, a) && a[j] == cid);
                assert(a[j - 1] == p);
            }
            assert(new.content(a[j]) == old.content(a[j]));
        }
        let q = with_separator(pn, idx, sep, f);
        assert(node_at(new, p) == Some(q));
        let pre = a.subrange(0, t + 1);
        if ci != idx {
            assert(a[t + 1] != cid) by {
                if a[t + 1] == cid {
                    assert(descends(old, root, key, a) && a[t + 1] == cid);
                }
            }
            assert(node_at(new, a[t + 1]) == node_at(old, a[t + 1])) by {
                assert(new.content(a[t + 1]) == old.content(a[t + 1]));
            }
            assert(steps_to(new, p, key, a[t + 1]));
            lemma_split_path_rest(old, new, root, key, a, t, a[t + 1]);
        } else {
            assert(a[t + 1] == cid);
            let left = key_lt(key, sep);
            let side: u32 = if left { cid } else { f };
            assert(steps_to(new, p, key, side));
            let half = if left { normalized(left_half(c)) } else { normalized(right_half(c, p)) };
            assert(node_at(new, side) == Some(half));
            if t + 1 == a.len() - 1 {
                assert(c.is_leaf);
                lemma_half_leaf_get(c, key, m, p);
            } else {
                assert(steps_to(old, a[t + 1], key, a[t + 2]));
                lemma_half_child(c, key, m, p);
                assert(steps_to(new, side, key, a[t + 2]));
            }
            lemma_split_path_rest(old, new, root, key, a, t, side);
        }
    } else {
        assert forall|j: int| 0 <= j < a.len() implies node_at(new, #[trigger] a[j]) == node_at(old, a[j]) by {
            assert(a[j] != p);
            if a[j] == cid {
                assert(descends(old, root, key, a) && a[j] == cid);
                assert(a[j - 1] == p);
            }
            assert(new.content(a[j]) == old.content(a[j]));
        }
        lemma_descends_same(old, new, key, a);
        assert(node_at(new, a.last()) == node_at(old, a.last()));
    }
}

/// The path after a split: the old path with the page after the parent
/// replaced by the half the search goes to.
#[verifier::spinoff_prover]
#[verifier::rlimit(100)]
proof fn lemma_split_path_rest(old: BufferPool, new: BufferPool, root: u32, key: KeyView, a: Seq<u32>, t: int, side: u32)
    requires
        descends(old, root, key, a),
        0 <= t < a.len() - 1,
        forall|j: int| 0 <= j < a.len() && j != t && j != t + 1 ==> node_at(new, #[trigger] a[j]) == node_at(old, a[j]),
        node_at(new, a[t]) is Some,
        steps_to(new, a[t], key, side),
        t + 1 < a.len() - 1 ==> steps_to(new, side, key, a[t + 2]),
        t + 1 == a.len() - 1 ==> leaf_at(new, side) && leaf_get(node_at(new, side)->0, key) == leaf_get(
            node_at(old, a.last())->0,
            key,
        ),
        t > 0 ==> steps_to(new, a[t - 1], key, a[t]) || node_at(new, a[t - 1]) == node_at(old, a[t - 1]),
    ensures
        found(new, root, key, leaf_get(node_at(old, a.last())->0, key)),
{
    let b = a.update(t + 1, side);
    assert forall|j: int| 0 <= j < b.len() - 1 implies steps_to(new, #[trigger] b[j], key, b[j + 1]) by {
        assert(steps_to(old, a[j], key, a[j + 1]));
        if j < t {
            assert(node_at(new, a[j]) == node_at(old, a[j]));
            assert(b[j] == a[j] && b[j + 1] == a[j + 1]);
        } else if j == t {
            assert(b[j] == a[t] && b[j + 1] == side);
        } else if j == t + 1 {
            assert(b[j] == side && b[j + 1] == a[t + 2]);
        } else {
            assert(node_at(new, a[j]) == node_at(old, a[j]));
            assert(b[j] == a[j] && b[j + 1] == a[j + 1]);
        }
    }
    if t + 1 < a.len() - 1 {
        assert(b.last() == a.last());
        assert(node_at(new, a.last()) == node_at(old, a.last()));
    }
    assert(b[0] == root) by {
        if t + 1 == 0 {
        }
    }
    assert(descends(new, root, key, b));
}

impl BTreeOnDisk {
    /// Inserts `key` with `value` into the tree whose root is the page
    /// `root_page_id`; a full root is split first, and the fresh root page
    /// replaces it (see [`split_root`]). On a coherent pool, once it
    /// succeeds, a search for `key` from the root finds `value`. A key
    /// already in the tree's leaf for it is a constraint violation (in a tree
    /// of one leaf with room, the content of every page is then kept, and a
    /// new key that fits the leaf's page goes in); a page
    /// that cannot be read, written or added, a node that does not fit in a
    /// page, or a walk that comes back to a page, is an error.
    ///
    /// Where the root has room and the search for `key` meets no full node
    /// (see [`quiet_walk`]), in a tree whose leaves are sane (see
    /// [`leaves_sane`]), an insert that succeeds changes only the leaf it
    /// reaches: every other key's search gives what it gave, and the leaves
    /// stay sane; a key already in that leaf is refused with every page
    /// kept.
    ///
    /// In a tree of one or two levels (see [`small_tree`]) whose root, if
    /// inner, has room, which is what [`BTreeOnDisk::create`] makes and what
    /// these inserts keep, splits included: an insert that succeeds keeps
    /// the tree small, and every other key's search gives what it gave; a
    /// key the tree holds is never inserted again (the result is an error),
    /// and where it is refused as a constraint violation every key's search
    /// gives what it gave (a full leaf may have been split on the way).
    #[verifier::spinoff_prover]
    #[verifier::rlimit(100)]
    pub fn insert_static(pool: &mut BufferPool, root_page_id: &mut u32, key: IndexKey, value: u64) -> (r:
        Result<(), DbError>)
        requires
            old(pool).wf(),
        ensures
            final(pool).wf(),
            final(pool).capacity_spec() == old(pool).capacity_spec(),
            final(pool).disk().len() >= old(pool).disk().len(),
            old(pool).coherent() ==> final(pool).coherent(),
            old(pool).idle() ==> final(pool).idle(),
            r is Ok ==> (old(pool).coherent() ==> finds(*final(pool), *final(root_page_id), key@, value)),
            node_at(*old(pool), *old(root_page_id)) matches Some(n) && n.keys.len() < MAX_KEYS_PER_NODE
                ==> *final(root_page_id) == *old(root_page_id),
            node_at(*old(pool), *old(root_page_id)) matches Some(n) && n.keys.len() >= MAX_KEYS_PER_NODE
                ==> (r is Ok ==> *final(root_page_id) == old(pool).disk().len()),
            *final(root_page_id) == *old(root_page_id) || *final(root_page_id) == old(pool).disk().len(),
            r matches Err(e) ==> e.kind() == ErrorKind::InvalidOperation || e.kind() == ErrorKind::Corruption
                || e.kind() == ErrorKind::ConstraintViolation,
            (old(pool).can_run(6) && (node_at(*old(pool), *old(root_page_id)) matches Some(n) && n.is_leaf
                && n.keys.len() < MAX_KEYS_PER_NODE && lower_from(n.keys, key@, 0) < n.keys.len() && n.keys[lower_from(
                n.keys,
                key@,
                0,
            )] == key@)) ==> (r matches Err(e) && e.kind() == ErrorKind::ConstraintViolation && forall|x: u32|
                #[trigger] final(pool).content(x) == old(pool).content(x)),
            (old(pool).can_run(12) && (node_at(*old(pool), *old(root_page_id)) matches Some(n) && n.is_leaf
                && n.keys.len() < MAX_KEYS_PER_NODE && !(lower_from(n.keys, key@, 0) < n.keys.len() && n.keys[lower_from(
                n.keys,
                key@,
                0,
            )] == key@) && node_encodable(leaf_with(n, key@, value)))) ==> r is Ok,
            (r is Ok && old(pool).coherent() && (node_at(*old(pool), *old(root_page_id)) matches Some(n) && n.is_leaf
                && n.keys.len() < MAX_KEYS_PER_NODE)) ==> (*final(root_page_id) == *old(root_page_id) && node_at(
                *final(pool),
                *old(root_page_id),
            ) == Some(leaf_with(node_at(*old(pool), *old(root_page_id))->0, key@, value)) && forall|x: u32|
                x != *old(root_page_id) ==> #[trigger] final(pool).content(x) == old(pool).content(x)),
        ({
            let w = quiet_walk(*old(pool), *old(root_page_id), key@, old(pool).disk().len() as nat);
            (r is Ok && old(pool).coherent() && (node_at(*old(pool), *old(root_page_id)) matches Some(n)
                && n.keys.len() < MAX_KEYS_PER_NODE) && w is Some && leaves_sane(*old(pool), *old(root_page_id)))
                ==> (leaves_sane(*final(pool), *final(root_page_id)) && forall|k2: KeyView, v: Option<u64>|
                k2 != key@ ==> (#[trigger] found(*final(pool), *final(root_page_id), k2, v) <==> found(
                    *old(pool),
                    *old(root_page_id),
                    k2,
                    v,
                )))
        }),
        ({
            let rn = node_at(*old(pool), *old(root_page_id))->0;
            (old(pool).coherent() && small_tree(*old(pool), *old(root_page_id)) && (rn.is_leaf || rn.keys.len()
                < MAX_KEYS_PER_NODE) && holds_key(*old(pool), *old(root_page_id), key@)) ==> r is Err
        }),
        ({
            let rn = node_at(*old(pool), *old(root_page_id))->0;
            (r matches Err(e) && e.kind() == ErrorKind::ConstraintViolation && old(pool).coherent() && small_tree(
                *old(pool),
                *old(root_page_id),
            ) && (rn.is_leaf || rn.keys.len() < MAX_KEYS_PER_NODE)) ==> forall|k2: KeyView, v: Option<u64>|
                #[trigger] found(*final(pool), *final(root_page_id), k2, v) <==> found(
                    *old(pool),
                    *old(root_page_id),
                    k2,
                    v,
                )
        }),
        ({
            let rn = node_at(*old(pool), *old(root_page_id))->0;
            (r is Ok && old(pool).coherent() && small_tree(*old(pool), *old(root_page_id)) && (rn.is_leaf
                || rn.keys.len() < MAX_KEYS_PER_NODE)) ==> (small_tree(*final(pool), *final(root_page_id))
                && forall|k2: KeyView, v: Option<u64>|
                k2 != key@ ==> (#[trigger] found(*final(pool), *final(root_page_id), k2, v) <==> found(
                    *old(pool),
                    *old(root_page_id),
                    k2,
                    v,
                )))
        }),
        ({
            let w = quiet_walk(*old(pool), *old(root_page_id), key@, old(pool).disk().len() as nat);
            (old(pool).coherent() && (node_at(*old(pool), *old(root_page_id)) matches Some(n) && n.keys.len()
                < MAX_KEYS_PER_NODE) && w is Some && leaf_get(node_at(*old(pool), w->0)->0, key@) is Some) ==> (
            r is Err && *final(root_page_id) == *old(root_page_id) && forall|x: u32|
                #[trigger] final(pool).content(x) == old(pool).content(x))
        }),
    {
        let ghost p0 = *pool;
        proof {
            if p0.coherent() && p0.content(*root_page_id) is Some {
                if p0.cache().contains_key(*root_page_id) {
                    assert(*root_page_id < p0.disk().len());
                }
            }
        }
        let root = load_node(pool, *root_page_id)?;
        let ghost ps = *pool;
        let ghost r0 = *root_page_id;
        if root.keys.len() >= MAX_KEYS_PER_NODE {
            split_root(pool, root_page_id)?;
        }
        let fuel = pool.page_count() as u64;
        let ancestors: Vec<u32> = Vec::new();
        let ghost p1 = *pool;
        let ghost kv = key@;
        proof {
            if p0.coherent() && root.keys@.len() < MAX_KEYS_PER_NODE {
                lemma_quiet_walk_same(p1, p0, *root_page_id, kv, fuel as nat);
            }
        }
        let r = insert_non_full(pool, *root_page_id, key, value, &ancestors, fuel);
        proof {
            let w = quiet_walk(p0, *root_page_id, kv, p0.disk().len() as nat);
            if r is Ok && p0.coherent() && root.keys@.len() < MAX_KEYS_PER_NODE && w is Some {
                let l = w->0;
                let ln = node_at(p0, l)->0;
                lemma_quiet_walk_leaf(p0, *root_page_id, kv, p0.disk().len() as nat);
                assert(node_at(p1, l) == node_at(p0, l));
                if leaves_sane(p0, *root_page_id) {
                    let a = lemma_quiet_walk_path(p0, *root_page_id, kv, p0.disk().len() as nat);
                    assert(keys_sorted(ln.keys) && ln.values.len() == ln.keys.len());
                    assert forall|x: u32| x != l implies #[trigger] node_at(*pool, x) == node_at(p0, x) by {
                        assert(pool.content(x) == p1.content(x));
                    }
                    assert forall|k2: KeyView, v: Option<u64>| k2 != kv implies (#[trigger] found(
                        *pool,
                        *root_page_id,
                        k2,
                        v,
                    ) <==> found(p0, *root_page_id, k2, v)) by {
                        lemma_leaf_insert_keeps_lookups(p0, *pool, *root_page_id, l, kv, value, k2, v);
                    }
                    lemma_leaf_insert_keeps_sane(p0, *pool, *root_page_id, l, kv, value);
                }
            }
            if p0.coherent() && root.keys@.len() < MAX_KEYS_PER_NODE && w is Some {
                assert(node_at(p1, w->0) == node_at(p0, w->0));
            }
        }
        proof {
            let rn = node_at(p0, r0)->0;
            if r is Ok && p0.coherent() && small_tree(p0, r0) && (rn.is_leaf || rn.keys.len() < MAX_KEYS_PER_NODE) {
                assert forall|x: u32| #[trigger] node_at(ps, x) == node_at(p0, x) by {
                    assert(ps.content(x) == p0.content(x));
                }
                lemma_same_nodes(ps, p0, r0);
                assert(rn == root@);
                if rn.keys.len() >= MAX_KEYS_PER_NODE {
                    let nr = *root_page_id;
                    let t = node_at(p1, nr)->0;
                    let c = rn;
                    let m = (c.keys.len() / 2) as int;
                    lemma_leaf_halves(c, nr);
                    assert(t.keys =~= seq![c.keys[m]]);
                    lemma_upper_from_bounds(t.keys, kv, 0);
                    let l = t.children[child_index(t.keys, kv)];
                    p1.lemma_content_in_file(nr);
                    assert(t.children =~= seq![r0, (nr + 1) as u32]);
                    assert(node_at(p1, l) matches Some(h) && h.is_leaf && h.keys.len() < MAX_KEYS_PER_NODE);
                    assert(quiet_walk(p1, l, kv, (fuel - 1) as nat) == Some(l));
                    assert(quiet_walk(p1, nr, kv, fuel as nat) == Some(l));
                    assert forall|x: u32| x != l implies #[trigger] node_at(*pool, x) == node_at(p1, x) by {
                        assert(pool.content(x) == p1.content(x));
                    }
                    lemma_small_tree_root_split(ps, p1, *pool, r0, nr, l, kv, value);
                    if holds_key(p0, r0, kv) {
                        let w = choose|w: u64| #[trigger] found(p0, r0, kv, Some(w));
                        assert(found(ps, r0, kv, Some(w)));
                    }
                } else {
                    assert forall|x: u32| #[trigger] node_at(p1, x) == node_at(p0, x) by {
                        assert(p1.content(x) == p0.content(x));
                    }
                    if rn.is_leaf {
                        assert(quiet_walk(p1, r0, kv, fuel as nat) == Some(r0));
                        assert forall|x: u32| x != r0 implies #[trigger] node_at(*pool, x) == node_at(p0, x) by {
                            assert(pool.content(x) == p1.content(x));
                        }
                        lemma_small_tree_quiet(p0, *pool, r0, r0, kv, value);
                        if holds_key(p0, r0, kv) {
                            let w = choose|w: u64| #[trigger] found(p0, r0, kv, Some(w));
                            assert(descends(p0, r0, kv, seq![r0]));
                            assert(found(p0, r0, kv, None));
                            lemma_found_unique(p0, r0, kv, None, Some(w));
                        }
                        assert forall|k2: KeyView, v: Option<u64>| k2 != kv implies (#[trigger] found(
                            *pool,
                            r0,
                            k2,
                            v,
                        ) <==> found(p0, r0, k2, v)) by {
                            lemma_leaf_insert_keeps_lookups(p0, *pool, r0, r0, kv, value, k2, v);
                        }
                    } else {
                        let ci = child_index(rn.keys, kv);
                        lemma_upper_from_bounds(rn.keys, kv, 0);
                        let ch = rn.children[ci];
                        assert(child_fits(rn, ci, node_at(p0, ch)->0));
                        p0.lemma_content_in_file(r0);
                        if (node_at(p0, ch)->0).keys.len() < MAX_KEYS_PER_NODE {
                            assert(node_at(p1, r0) == Some(rn));
                            assert(node_at(p1, ch) == node_at(p0, ch));
                            assert(leaf_sane(node_at(p0, ch)->0));
                            assert(quiet_walk(p1, ch, kv, (fuel - 1) as nat) == Some(ch));
                            assert(quiet_walk(p1, r0, kv, fuel as nat) == Some(ch));
                            assert forall|x: u32| x != ch implies #[trigger] node_at(*pool, x) == node_at(p0, x) by {
                                assert(pool.content(x) == p1.content(x));
                            }
                            lemma_small_tree_quiet(p0, *pool, r0, ch, kv, value);
                            if holds_key(p0, r0, kv) {
                                let w = choose|w: u64| #[trigger] found(p0, r0, kv, Some(w));
                                lemma_small_tree_path(p0, r0, kv);
                                lemma_found_unique(p0, r0, kv, None, Some(w));
                            }
                            assert forall|k2: KeyView, v: Option<u64>| k2 != kv implies (#[trigger] found(
                                *pool,
                                r0,
                                k2,
                                v,
                            ) <==> found(p0, r0, k2, v)) by {
                                lemma_leaf_insert_keeps_lookups(p0, *pool, r0, ch, kv, value, k2, v);
                            }
                        } else {
                            assert(leaf_at(p1, ch));
                            let mid = choose|mid: BufferPool| #[trigger] split_then_leaf_insert(p1, mid, *pool, r0, kv, value);
                            lemma_same_nodes(p1, p0, r0);
                            lemma_small_tree_child_split(p1, mid, *pool, r0, kv, value);
                            if holds_key(p0, r0, kv) {
                                let w = choose|w: u64| #[trigger] found(p0, r0, kv, Some(w));
                                assert(found(p1, r0, kv, Some(w)));
                            }
                        }
                    }
                }
            }
        }
        proof {
            let rn = node_at(p0, r0)->0;
            if (r matches Err(ref e) && e.kind() == ErrorKind::ConstraintViolation) && p0.coherent() && small_tree(p0, r0)
                && (rn.is_leaf || rn.keys.len() < MAX_KEYS_PER_NODE) {
                assert forall|x: u32| #[trigger] node_at(ps, x) == node_at(p0, x) by {
                    assert(ps.content(x) == p0.content(x));
                }
                lemma_same_nodes(ps, p0, r0);
                assert(rn == root@);
                if rn.keys.len() >= MAX_KEYS_PER_NODE {
                    let nr = *root_page_id;
                    let t = node_at(p1, nr)->0;
                    let c = rn;
                    let m = (c.keys.len() / 2) as int;
                    lemma_leaf_halves(c, nr);
                    assert(t.keys =~= seq![c.keys[m]]);
                    lemma_upper_from_bounds(t.keys, kv, 0);
                    let l = t.children[child_index(t.keys, kv)];
                    p1.lemma_content_in_file(nr);
                    assert(t.children =~= seq![r0, (nr + 1) as u32]);
                    assert(node_at(p1, l) matches Some(h) && h.is_leaf && h.keys.len() < MAX_KEYS_PER_NODE);
                    assert(quiet_walk(p1, l, kv, (fuel - 1) as nat) == Some(l));
                    assert(quiet_walk(p1, nr, kv, fuel as nat) == Some(l));
                    assert forall|x: u32| #[trigger] node_at(*pool, x) == node_at(p1, x) by {
                        assert(pool.content(x) == p1.content(x));
                    }
                    lemma_same_nodes(*pool, p1, nr);
                    lemma_small_root_split_lookups(ps, p1, r0, nr);
                } else {
                    assert forall|x: u32| #[trigger] node_at(p1, x) == node_at(p0, x) by {
                        assert(p1.content(x) == p0.content(x));
                    }
                    if rn.is_leaf {
                        assert(quiet_walk(p1, r0, kv, fuel as nat) == Some(r0));
                        assert forall|x: u32| #[trigger] node_at(*pool, x) == node_at(p0, x) by {
                            assert(pool.content(x) == p1.content(x));
                        }
                        lemma_same_nodes(*pool, p0, r0);
                    } else {
                        let ci = child_index(rn.keys, kv);
                        lemma_upper_from_bounds(rn.keys, kv, 0);
                        let ch = rn.children[ci];
                        assert(child_fits(rn, ci, node_at(p0, ch)->0));
                        p0.lemma_content_in_file(r0);
                        if (node_at(p0, ch)->0).keys.len() < MAX_KEYS_PER_NODE {
                            assert(node_at(p1, r0) == Some(rn));
                            assert(node_at(p1, ch) == node_at(p0, ch));
                            assert(leaf_sane(node_at(p0, ch)->0));
                            assert(quiet_walk(p1, ch, kv, (fuel - 1) as nat) == Some(ch));
                            assert(quiet_walk(p1, r0, kv, fuel as nat) == Some(ch));
                            assert forall|x: u32| #[trigger] node_at(*pool, x) == node_at(p0, x) by {
                                assert(pool.content(x) == p1.content(x));
                            }
                            lemma_same_nodes(*pool, p0, r0);
                        } else {
                            assert(leaf_at(p1, ch));
                            let mid = choose|mid: BufferPool| #[trigger] split_then_kept(p1, mid, *pool, r0, kv);
                            lemma_same_nodes(p1, p0, r0);
                            lemma_small_child_split_lookups(p1, mid, r0, kv);
                            lemma_same_nodes(*pool, mid, r0);
                        }
                    }
                }
            }
        }
        r
    }
}

/// What a search gives back of an insert: where a search for `key` from
/// `root` finds `value` (as [`BTreeOnDisk::insert_static`] leaves it), any
/// search for `key` from `root` gives `Some(value)` (as
/// [`BTreeOnDisk::lookup_static`] reports it).
pub proof fn lemma_lookup_after_insert(pool: BufferPool, root: u32, key: KeyView, value: u64, v: Option<u64>)
    requires
        finds(pool, root, key, value),
        found(pool, root, key, v),
    ensures
        v == Some(value),
{
    lemma_found_unique(pool, root, key, Some(value), v);
}

} // verus!
