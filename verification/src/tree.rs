//! Structure blocks written out from a tree of nodes, and what walking them
//! gives: the laws of a node's properties and of the search for a child,
//! stated over well-formed blocks.
use vstd::prelude::*;
use vstd::utf8::valid_utf8;

use crate::endian::{be_u32_at, be_value};
use crate::fdt::{
    law_nop_skipped_by_find, law_nop_skipped_by_iteration, FDT_NOP, find_walk, law_property_step_lies_in_node, prop_walk, unit_name, FindOutcome, PropStep,
    FDT_BEGIN_NODE, FDT_END_NODE, FDT_PROP,
};
use crate::reader::{first_index_of, lemma_round_up4, round_up4};

verus! {

/// A property as a block holds it: where its name starts in the strings
/// block, and its data.
pub ghost struct PropEntry {
    pub name_offset: u32,
    pub data: Seq<u8>,
}

/// A node as a block holds it: its name, its own properties, its children.
pub ghost struct NodeTree {
    pub name: Seq<u8>,
    /// How many `FDT_NOP` tokens follow the name.
    pub nops: nat,
    pub props: Seq<PropEntry>,
    pub children: Seq<NodeTree>,
}

/// The four bytes of `v`, most significant first.
pub open spec fn be_bytes(v: u32) -> Seq<u8> {
    seq![
        (v >> 24u32) as u8,
        ((v >> 16u32) & 0xffu32) as u8,
        ((v >> 8u32) & 0xffu32) as u8,
        (v & 0xffu32) as u8,
    ]
}

/// The zero bytes that bring `n` bytes up to a multiple of 4.
pub open spec fn padding(n: nat) -> Seq<u8> {
    Seq::new((round_up4(n as int) - n) as nat, |i: int| 0u8)
}

/// A node name as a block holds it: its bytes, a nul, then padding.
pub open spec fn encode_name(name: Seq<u8>) -> Seq<u8> {
    name + seq![0u8] + padding(name.len() + 1)
}

/// A property as a block holds it: `FDT_PROP`, the data's length, the name
/// offset, the data, then padding.
pub open spec fn encode_prop(e: PropEntry) -> Seq<u8> {
    be_bytes(FDT_PROP) + be_bytes(e.data.len() as u32) + be_bytes(e.name_offset) + e.data
        + padding(e.data.len())
}

/// Properties one after the other.
pub open spec fn encode_props(ps: Seq<PropEntry>) -> Seq<u8>
    decreases ps.len(),
{
    if ps.len() == 0 {
        Seq::empty()
    } else {
        encode_prop(ps[0]) + encode_props(ps.drop_first())
    }
}

/// `k` tokens `FDT_NOP` one after the other.
pub open spec fn nop_tokens(k: nat) -> Seq<u8>
    decreases k,
{
    if k == 0 {
        Seq::empty()
    } else {
        be_bytes(FDT_NOP) + nop_tokens((k - 1) as nat)
    }
}

/// The start of a node as a block holds it: `FDT_BEGIN_NODE`, its name, then
/// its `FDT_NOP` tokens.
pub open spec fn encode_head(n: NodeTree) -> Seq<u8> {
    be_bytes(FDT_BEGIN_NODE) + encode_name(n.name) + nop_tokens(n.nops)
}

/// A node as a block holds it: `FDT_BEGIN_NODE`, its name, its `FDT_NOP`
/// tokens, its properties, its children, then `FDT_END_NODE`.
pub open spec fn encode_node(n: NodeTree) -> Seq<u8>
    decreases n,
{
    encode_head(n) + encode_props(n.props) + encode_children(n.children) + be_bytes(FDT_END_NODE)
}

/// Nodes one after the other.
pub open spec fn encode_children(cs: Seq<NodeTree>) -> Seq<u8>
    decreases cs,
{
    if cs.len() == 0 {
        Seq::empty()
    } else {
        encode_node(cs[0]) + encode_children(cs.subrange(1, cs.len() as int))
    }
}

/// How many levels of nodes lie below `n`, `n` itself counted.
pub open spec fn height(n: NodeTree) -> nat
    decreases n,
{
    1 + children_height(n.children)
}

/// The greatest height among `cs` (0 for none).
pub open spec fn children_height(cs: Seq<NodeTree>) -> nat
    decreases cs,
{
    if cs.len() == 0 {
        0
    } else {
        let h = height(cs[0]);
        let rest = children_height(cs.subrange(1, cs.len() as int));
        if h >= rest {
            h
        } else {
            rest
        }
    }
}

/// Every property's data length fits in the 32-bit length word.
pub open spec fn props_fit(ps: Seq<PropEntry>) -> bool {
    forall|i: int| 0 <= i < ps.len() ==> ps[i].data.len() <= u32::MAX
}

/// No name holds a nul, and every property's length fits.
pub open spec fn well_formed(n: NodeTree) -> bool
    decreases n,
{
    &&& forall|i: int| 0 <= i < n.name.len() ==> n.name[i] != 0
    &&& props_fit(n.props)
    &&& children_well_formed(n.children)
}

/// Every node of `cs` is well formed.
pub open spec fn children_well_formed(cs: Seq<NodeTree>) -> bool
    decreases cs,
{
    cs.len() == 0 || (well_formed(cs[0]) && children_well_formed(cs.subrange(1, cs.len() as int)))
}

/// `s` holds the bytes `x` from index `p` on.
pub open spec fn holds_at(s: Seq<u8>, p: int, x: Seq<u8>) -> bool {
    0 <= p && p + x.len() <= s.len() && s.subrange(p, p + x.len()) == x
}

proof fn lemma_holds_at_concat(s: Seq<u8>, p: int, a: Seq<u8>, b: Seq<u8>)
    requires
        holds_at(s, p, a + b),
    ensures
        holds_at(s, p, a),
        holds_at(s, p + a.len(), b),
{
    assert(s.subrange(p, p + a.len()) =~= (a + b).subrange(0, a.len() as int));
    assert((a + b).subrange(0, a.len() as int) =~= a);
    assert(s.subrange(p + a.len(), p + a.len() + b.len()) =~= (a + b).subrange(
        a.len() as int,
        (a + b).len() as int,
    ));
    assert((a + b).subrange(a.len() as int, (a + b).len() as int) =~= b);
}

proof fn lemma_be_bytes_value(v: u32)
    ensures
        be_value(be_bytes(v)[0], be_bytes(v)[1], be_bytes(v)[2], be_bytes(v)[3]) == v,
{
    let b0 = (v >> 24u32) as u8;
    let b1 = ((v >> 16u32) & 0xffu32) as u8;
    let b2 = ((v >> 8u32) & 0xffu32) as u8;
    let b3 = (v & 0xffu32) as u8;
    assert(be_value(b0, b1, b2, b3) == v) by (bit_vector)
        requires
            b0 == (v >> 24u32) as u8,
            b1 == ((v >> 16u32) & 0xffu32) as u8,
            b2 == ((v >> 8u32) & 0xffu32) as u8,
            b3 == (v & 0xffu32) as u8,
    ;
}

/// Where a block holds the bytes of `v`, reading a word there gives `v`.
proof fn lemma_read_be_bytes(s: Seq<u8>, p: int, v: u32)
    requires
        holds_at(s, p, be_bytes(v)),
    ensures
        be_u32_at(s, p) == v,
{
    lemma_be_bytes_value(v);
    assert(s[p] == s.subrange(p, p + 4)[0]);
    assert(s[p + 1] == s.subrange(p, p + 4)[1]);
    assert(s[p + 2] == s.subrange(p, p + 4)[2]);
    assert(s[p + 3] == s.subrange(p, p + 4)[3]);
}

proof fn lemma_first_index_of_is(s: Seq<u8>, byte: u8, from: int, k: int)
    requires
        0 <= from <= k < s.len(),
        s[k] == byte,
        forall|j: int| from <= j < k ==> s[j] != byte,
    ensures
        first_index_of(s, byte, from) == Some(k),
    decreases k - from,
{
    if from < k {
        lemma_first_index_of_is(s, byte, from + 1, k);
    }
}

/// Where a block holds a name without nul, the first nul from there ends
/// the name, and the name with its nul and padding is `encode_name` long.
proof fn lemma_read_name(s: Seq<u8>, p: int, name: Seq<u8>)
    requires
        holds_at(s, p, encode_name(name)),
        forall|i: int| 0 <= i < name.len() ==> name[i] != 0,
    ensures
        first_index_of(s, 0, p) == Some(p + name.len()),
        p + round_up4(name.len() + 1int) == p + encode_name(name).len(),
        s.subrange(p, p + name.len()) == name,
{
    lemma_round_up4(name.len() + 1int);
    let e = encode_name(name);
    assert forall|j: int| p <= j < p + name.len() implies s[j] != 0 by {
        assert(s[j] == s.subrange(p, p + e.len())[j - p]);
        assert(e[j - p] == name[j - p]);
    }
    assert(s[p + name.len()] == s.subrange(p, p + e.len())[name.len() as int]);
    lemma_first_index_of_is(s, 0, p, p + name.len());
    assert(s.subrange(p, p + name.len()) =~= e.subrange(0, name.len() as int));
    assert(e.subrange(0, name.len() as int) =~= name);
}

/// Walking over `FDT_NOP` tokens changes nothing, for the iteration over
/// properties and for the search, at any depth.
proof fn lemma_walk_nops(s: Seq<u8>, p: int, k: nat, depth: int, target: Seq<u8>)
    requires
        holds_at(s, p, nop_tokens(k)),
    ensures
        nop_tokens(k).len() == 4 * k,
        prop_walk(s, p, depth) == prop_walk(s, p + 4 * k, depth),
        find_walk(s, p, depth, target) == find_walk(s, p + 4 * k, depth, target),
    decreases k,
{
    if k > 0 {
        lemma_holds_at_concat(s, p, be_bytes(FDT_NOP), nop_tokens((k - 1) as nat));
        lemma_read_be_bytes(s, p, FDT_NOP);
        law_nop_skipped_by_iteration(s, p, depth);
        law_nop_skipped_by_find(s, p, depth, target);
        lemma_walk_nops(s, p + 4, (k - 1) as nat, depth, target);
    }
}

/// The start of a written-out node: its `FDT_BEGIN_NODE` token, its name up
/// to the first nul, then its `FDT_NOP` tokens, over which walks go on unchanged.
proof fn lemma_read_head(s: Seq<u8>, p: int, n: NodeTree, depth: int, target: Seq<u8>)
    requires
        holds_at(s, p, encode_head(n)),
        forall|i: int| 0 <= i < n.name.len() ==> n.name[i] != 0,
    ensures
        be_u32_at(s, p) == FDT_BEGIN_NODE,
        first_index_of(s, 0, p + 4) == Some(p + 4 + n.name.len()),
        s.subrange(p + 4, p + 4 + n.name.len()) == n.name,
        p + 4 + round_up4(n.name.len() + 1int) == p + 4 + encode_name(n.name).len(),
        encode_head(n).len() == 4 + encode_name(n.name).len() + 4 * n.nops,
        prop_walk(s, p + 4 + encode_name(n.name).len(), depth) == prop_walk(
            s,
            p + encode_head(n).len(),
            depth,
        ),
        find_walk(s, p + 4 + encode_name(n.name).len(), depth, target) == find_walk(
            s,
            p + encode_head(n).len(),
            depth,
            target,
        ),
{
    let begin = be_bytes(FDT_BEGIN_NODE);
    let name = encode_name(n.name);
    lemma_holds_at_concat(s, p, begin + name, nop_tokens(n.nops));
    lemma_holds_at_concat(s, p, begin, name);
    lemma_read_be_bytes(s, p, FDT_BEGIN_NODE);
    lemma_read_name(s, p + 4, n.name);
    lemma_walk_nops(s, p + 4 + name.len(), n.nops, depth, target);
}

/// A property read at depth 0 is yielded with its data and name offset; at
/// any other depth it is passed over.
proof fn lemma_walk_prop(s: Seq<u8>, p: int, e: PropEntry, depth: int)
    requires
        holds_at(s, p, encode_prop(e)),
        e.data.len() <= u32::MAX,
        s.len() <= usize::MAX,
    ensures
        encode_prop(e).len() == 12 + round_up4(e.data.len() as int),
        be_u32_at(s, p) == FDT_PROP,
        be_u32_at(s, p + 4) == e.data.len(),
        s.subrange(p + 12, p + 12 + e.data.len()) == e.data,
        depth == 0 ==> prop_walk(s, p, depth) == (PropStep::Yield {
            data_start: p + 12,
            data_len: e.data.len() as int,
            name_offset: e.name_offset,
            pos: p + encode_prop(e).len(),
            depth: 0,
        }),
        depth != 0 ==> prop_walk(s, p, depth) == prop_walk(s, p + encode_prop(e).len(), depth),
{
    let a = be_bytes(FDT_PROP);
    let b = be_bytes(e.data.len() as u32);
    let c = be_bytes(e.name_offset);
    let d = e.data;
    let pad = padding(e.data.len());
    lemma_round_up4(e.data.len() as int);
    lemma_holds_at_concat(s, p, a + b + c + d, pad);
    lemma_holds_at_concat(s, p, a + b + c, d);
    lemma_holds_at_concat(s, p, a + b, c);
    lemma_holds_at_concat(s, p, a, b);
    lemma_read_be_bytes(s, p, FDT_PROP);
    lemma_read_be_bytes(s, p + 4, e.data.len() as u32);
    lemma_read_be_bytes(s, p + 8, e.name_offset);
}

/// Properties read at a depth other than 0 are all passed over.
proof fn lemma_walk_props_skipped(s: Seq<u8>, p: int, ps: Seq<PropEntry>, depth: int)
    requires
        holds_at(s, p, encode_props(ps)),
        props_fit(ps),
        s.len() <= usize::MAX,
        depth != 0,
    ensures
        prop_walk(s, p, depth) == prop_walk(s, p + encode_props(ps).len(), depth),
    decreases ps.len(),
{
    if ps.len() > 0 {
        let first = encode_prop(ps[0]);
        let rest = encode_props(ps.drop_first());
        lemma_holds_at_concat(s, p, first, rest);
        lemma_walk_prop(s, p, ps[0], depth);
        assert(props_fit(ps.drop_first()));
        lemma_walk_props_skipped(s, p + first.len(), ps.drop_first(), depth);
    }
}

/// A whole node read at a depth of 0 or more is passed over: the walk goes
/// on after it at the same depth, having yielded nothing.
proof fn lemma_walk_node_skipped(s: Seq<u8>, p: int, n: NodeTree, depth: int)
    requires
        holds_at(s, p, encode_node(n)),
        well_formed(n),
        0 <= depth,
        depth + height(n) <= i32::MAX,
        s.len() <= usize::MAX,
    ensures
        prop_walk(s, p, depth) == prop_walk(s, p + encode_node(n).len(), depth),
    decreases n,
{
    let head = encode_head(n);
    let props = encode_props(n.props);
    let children = encode_children(n.children);
    let end = be_bytes(FDT_END_NODE);
    lemma_holds_at_concat(s, p, head + props + children, end);
    lemma_holds_at_concat(s, p, head + props, children);
    lemma_holds_at_concat(s, p, head, props);
    lemma_read_head(s, p, n, depth + 1, Seq::empty());
    let q = p + head.len();
    lemma_walk_props_skipped(s, q, n.props, depth + 1);
    let r = q + props.len();
    lemma_walk_children_skipped(s, r, n.children, depth + 1);
    let t = r + children.len();
    lemma_read_be_bytes(s, t, FDT_END_NODE);
    assert(prop_walk(s, t, depth + 1) == prop_walk(s, t + 4, depth));
}

/// Nodes read one after the other at a depth of 1 or more are all passed over.
proof fn lemma_walk_children_skipped(s: Seq<u8>, p: int, cs: Seq<NodeTree>, depth: int)
    requires
        holds_at(s, p, encode_children(cs)),
        children_well_formed(cs),
        0 <= depth,
        depth + children_height(cs) <= i32::MAX,
        s.len() <= usize::MAX,
    ensures
        prop_walk(s, p, depth) == prop_walk(s, p + encode_children(cs).len(), depth),
    decreases cs,
{
    if cs.len() > 0 {
        let first = encode_node(cs[0]);
        let rest = cs.subrange(1, cs.len() as int);
        lemma_holds_at_concat(s, p, first, encode_children(rest));
        lemma_walk_node_skipped(s, p, cs[0], depth);
        lemma_walk_children_skipped(s, p + first.len(), rest, depth);
    }
}

/// The properties that successive calls of `PropertyIter::next` yield, from
/// position `pos` at depth `depth`, up to the first `None`; `None` where one
/// of those calls would meet malformed bytes.
pub open spec fn properties_until_stop(s: Seq<u8>, pos: int, depth: int) -> Option<Seq<PropEntry>>
    decreases s.len() - pos,
{
    match prop_walk(s, pos, depth) {
        PropStep::Yield { data_start, data_len, name_offset, pos: next, depth: next_depth } => {
            proof {
                law_property_step_lies_in_node(s, pos, depth);
                lemma_round_up4(data_len);
            }
            if next > s.len() {
                None
            } else {
                match properties_until_stop(s, next, next_depth) {
                    Some(rest) => Some(
                        seq![PropEntry { name_offset, data: s.subrange(data_start, data_start + data_len) }]
                            + rest,
                    ),
                    None => None,
                }
            }
        },
        PropStep::Stop { .. } => Some(Seq::empty()),
        PropStep::Malformed => None,
    }
}

proof fn lemma_own_properties(
    s: Seq<u8>,
    q: int,
    ps: Seq<PropEntry>,
    cs: Seq<NodeTree>,
)
    requires
        holds_at(s, q, encode_props(ps)),
        holds_at(s, q + encode_props(ps).len(), encode_children(cs)),
        holds_at(s, q + encode_props(ps).len() + encode_children(cs).len(), be_bytes(FDT_END_NODE)),
        props_fit(ps),
        children_well_formed(cs),
        children_height(cs) <= i32::MAX,
        s.len() <= usize::MAX,
    ensures
        properties_until_stop(s, q, 0) == Some(ps),
    decreases ps.len(),
{
    if ps.len() == 0 {
        let r = q + encode_props(ps).len();
        lemma_walk_children_skipped(s, r, cs, 0);
        lemma_read_be_bytes(s, r + encode_children(cs).len(), FDT_END_NODE);
        assert(ps =~= Seq::<PropEntry>::empty());
    } else {
        let first = encode_prop(ps[0]);
        let rest = ps.drop_first();
        lemma_holds_at_concat(s, q, first, encode_props(rest));
        lemma_walk_prop(s, q, ps[0], 0);
        assert(props_fit(rest));
        lemma_own_properties(s, q + first.len(), rest, cs);
        assert(seq![ps[0]] + rest =~= ps);
    }
}

/// Iterating over the properties of a node written out from a well-formed
/// tree (`Node::properties`, then `PropertyIter::next` until it gives
/// `None`) yields exactly the node's own properties, in order, with their
/// data and name offsets; the properties of its descendants are passed over.
pub proof fn law_iteration_yields_own_properties(s: Seq<u8>, p: int, n: NodeTree)
    requires
        holds_at(s, p, encode_node(n)),
        well_formed(n),
        height(n) <= i32::MAX,
        s.len() <= usize::MAX,
    ensures
        properties_until_stop(s, p, -1) == Some(n.props),
{
    let head = encode_head(n);
    let props = encode_props(n.props);
    let children = encode_children(n.children);
    let end = be_bytes(FDT_END_NODE);
    lemma_holds_at_concat(s, p, head + props + children, end);
    lemma_holds_at_concat(s, p, head + props, children);
    lemma_holds_at_concat(s, p, head, props);
    lemma_read_head(s, p, n, 0, Seq::empty());
    let q0 = p + 4 + encode_name(n.name).len();
    let q = p + head.len();
    assert(prop_walk(s, p, -1) == prop_walk(s, q0, 0));
    assert(prop_walk(s, p, -1) == prop_walk(s, q, 0));
    lemma_own_properties(s, q, n.props, n.children);
}

/// Every name in the tree is valid UTF-8.
pub open spec fn names_utf8(n: NodeTree) -> bool
    decreases n,
{
    valid_utf8(n.name) && children_names_utf8(n.children)
}

/// Every name in the trees `cs` is valid UTF-8.
pub open spec fn children_names_utf8(cs: Seq<NodeTree>) -> bool
    decreases cs,
{
    cs.len() == 0 || (names_utf8(cs[0]) && children_names_utf8(cs.subrange(1, cs.len() as int)))
}

/// Where, counting from `at`, the first of the nodes `cs` written one after
/// the other whose unit name is `target` starts, if one is.
pub open spec fn first_child_named(cs: Seq<NodeTree>, target: Seq<u8>, at: int) -> Option<int>
    decreases cs,
{
    if cs.len() == 0 {
        None
    } else if unit_name(cs[0].name) == target {
        Some(at)
    } else {
        first_child_named(cs.subrange(1, cs.len() as int), target, at + encode_node(cs[0]).len())
    }
}

proof fn lemma_find_props_skipped(s: Seq<u8>, p: int, ps: Seq<PropEntry>, depth: int, target: Seq<u8>)
    requires
        holds_at(s, p, encode_props(ps)),
        props_fit(ps),
        s.len() <= usize::MAX,
    ensures
        find_walk(s, p, depth, target) == find_walk(s, p + encode_props(ps).len(), depth, target),
    decreases ps.len(),
{
    if ps.len() > 0 {
        let first = encode_prop(ps[0]);
        let rest = encode_props(ps.drop_first());
        lemma_holds_at_concat(s, p, first, rest);
        lemma_walk_prop(s, p, ps[0], 1);
        assert(props_fit(ps.drop_first()));
        lemma_find_props_skipped(s, p + first.len(), ps.drop_first(), depth, target);
    }
}

/// The parts of a written-out node, and where each begins; walks go on
/// unchanged over the `FDT_NOP` tokens after its name.
proof fn lemma_node_parts(s: Seq<u8>, p: int, n: NodeTree, depth: int, target: Seq<u8>)
    requires
        holds_at(s, p, encode_node(n)),
        well_formed(n),
    ensures
        be_u32_at(s, p) == FDT_BEGIN_NODE,
        first_index_of(s, 0, p + 4) == Some(p + 4 + n.name.len()),
        s.subrange(p + 4, p + 4 + n.name.len()) == n.name,
        p + 4 + round_up4(n.name.len() + 1int) == p + 4 + encode_name(n.name).len(),
        find_walk(s, p + 4 + encode_name(n.name).len(), depth, target) == find_walk(
            s,
            p + encode_head(n).len(),
            depth,
            target,
        ),
        holds_at(s, p + encode_head(n).len(), encode_props(n.props)),
        holds_at(
            s,
            p + encode_head(n).len() + encode_props(n.props).len(),
            encode_children(n.children),
        ),
        be_u32_at(
            s,
            p + encode_head(n).len() + encode_props(n.props).len() + encode_children(
                n.children,
            ).len(),
        ) == FDT_END_NODE,
        encode_node(n).len() == encode_head(n).len() + encode_props(n.props).len()
            + encode_children(n.children).len() + 4,
{
    let head = encode_head(n);
    let props = encode_props(n.props);
    let children = encode_children(n.children);
    let end = be_bytes(FDT_END_NODE);
    lemma_holds_at_concat(s, p, head + props + children, end);
    lemma_holds_at_concat(s, p, head + props, children);
    lemma_holds_at_concat(s, p, head, props);
    lemma_read_head(s, p, n, depth, target);
    lemma_read_be_bytes(s, p + head.len() + props.len() + children.len(), FDT_END_NODE);
}

/// A node met at depth 2 or more, a grandchild or deeper, is passed over by
/// the search.
proof fn lemma_find_node_skipped(s: Seq<u8>, p: int, n: NodeTree, depth: int, target: Seq<u8>)
    requires
        holds_at(s, p, encode_node(n)),
        well_formed(n),
        names_utf8(n),
        2 <= depth,
        depth + height(n) <= i32::MAX,
        s.len() <= usize::MAX,
    ensures
        find_walk(s, p, depth, target) == find_walk(s, p + encode_node(n).len(), depth, target),
    decreases n,
{
    lemma_node_parts(s, p, n, depth + 1, target);
    let q = p + encode_head(n).len();
    lemma_find_props_skipped(s, q, n.props, depth + 1, target);
    let r = q + encode_props(n.props).len();
    lemma_find_children_skipped(s, r, n.children, depth + 1, target);
    let t = r + encode_children(n.children).len();
    assert(find_walk(s, t, depth + 1, target) == find_walk(s, t + 4, depth, target));
}

/// Nodes met at depth 2 or more are all passed over by the search.
proof fn lemma_find_children_skipped(
    s: Seq<u8>,
    p: int,
    cs: Seq<NodeTree>,
    depth: int,
    target: Seq<u8>,
)
    requires
        holds_at(s, p, encode_children(cs)),
        children_well_formed(cs),
        children_names_utf8(cs),
        2 <= depth,
        depth + children_height(cs) <= i32::MAX,
        s.len() <= usize::MAX,
    ensures
        find_walk(s, p, depth, target) == find_walk(s, p + encode_children(cs).len(), depth, target),
    decreases cs,
{
    if cs.len() > 0 {
        let first = encode_node(cs[0]);
        let rest = cs.subrange(1, cs.len() as int);
        lemma_holds_at_concat(s, p, first, encode_children(rest));
        lemma_find_node_skipped(s, p, cs[0], depth, target);
        lemma_find_children_skipped(s, p + first.len(), rest, depth, target);
    }
}

/// The children of the searched node, met at depth 1: the first whose unit
/// name is the target is found; where none is, the search goes on after them.
proof fn lemma_find_among_children(s: Seq<u8>, p: int, cs: Seq<NodeTree>, target: Seq<u8>)
    requires
        holds_at(s, p, encode_children(cs)),
        children_well_formed(cs),
        children_names_utf8(cs),
        1 + children_height(cs) <= i32::MAX,
        s.len() <= usize::MAX,
    ensures
        find_walk(s, p, 1, target) == (match first_child_named(cs, target, p) {
            Some(o) => FindOutcome::Found(o),
            None => find_walk(s, p + encode_children(cs).len(), 1, target),
        }),
    decreases cs,
{
    if cs.len() > 0 {
        let n = cs[0];
        let first = encode_node(n);
        let rest = cs.subrange(1, cs.len() as int);
        lemma_holds_at_concat(s, p, first, encode_children(rest));
        assert(well_formed(n));
        assert(names_utf8(n));
        assert(props_fit(n.props));
        assert(children_well_formed(n.children));
        assert(height(n) <= children_height(cs));
        lemma_node_parts(s, p, n, 2, target);
        if unit_name(n.name) != target {
            let q = p + encode_head(n).len();
            lemma_find_props_skipped(s, q, n.props, 2, target);
            let r = q + encode_props(n.props).len();
            lemma_find_children_skipped(s, r, n.children, 2, target);
            let t = r + encode_children(n.children).len();
            assert(find_walk(s, t, 2, target) == find_walk(s, t + 4, 1, target));
            lemma_find_among_children(s, p + first.len(), rest, target);
        }
    }
}

/// Searching a node written out from a well-formed tree whose names are
/// valid UTF-8 finds its first direct child whose unit name (the part of its
/// name before any `@`) is the target, at the index where that child's
/// `FDT_BEGIN_NODE` token stands; where no direct child has that unit name,
/// nothing is found, however the deeper nodes or the later siblings are named.
pub proof fn law_find_finds_first_direct_child(s: Seq<u8>, p: int, n: NodeTree, target: Seq<u8>)
    requires
        holds_at(s, p, encode_node(n)),
        well_formed(n),
        names_utf8(n),
        height(n) <= i32::MAX,
        s.len() <= usize::MAX,
    ensures
        find_walk(s, p, 0, target) == (match first_child_named(
            n.children,
            target,
            p + encode_head(n).len() + encode_props(n.props).len(),
        ) {
            Some(o) => FindOutcome::Found(o),
            None => FindOutcome::Absent,
        }),
{
    lemma_node_parts(s, p, n, 1, target);
    let q0 = p + 4 + encode_name(n.name).len();
    let q = p + encode_head(n).len();
    assert(find_walk(s, p, 0, target) == find_walk(s, q0, 1, target));
    lemma_find_props_skipped(s, q, n.props, 1, target);
    let r = q + encode_props(n.props).len();
    lemma_find_among_children(s, r, n.children, target);
}

} // verus!
