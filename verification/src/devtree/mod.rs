use vstd::prelude::*;

pub mod decode;
pub mod path;

verus! {

use vstd::string::StringSliceAdditionalSpecFns;
use crate::io::bytesreader::{
    be_u32, be_u64, first_nul, has_str_at, lemma_first_nul, lemma_slice_len, read_null_term_str,
    try_read_null_term_str, BytesReader,
};
use self::decode::{FdtReserveEntry, Header};
use self::path::{
    bytes_eq, find_byte, lemma_find_byte, lemma_split_once_at, lemma_split_once_none, lemma_split_once_rejoin,
    split_once,
    split_once_bytes, split_once_str,
};

pub const FDT_BEGIN_NODE: u32 = 0x00000001;
pub const FDT_END_NODE: u32 = 0x00000002;
pub const FDT_PROP: u32 = 0x00000003;
pub const FDT_NOP: u32 = 0x00000004;
pub const FDT_END: u32 = 0x00000009;

/// A node of a device tree, as plain values: its name, its properties (name and value) and its
/// children.
pub struct NodeSpec {
    pub name: Seq<u8>,
    pub props: Seq<(Seq<u8>, Seq<u8>)>,
    pub children: Seq<NodeSpec>,
}

/// The big-endian word at `p` of `b`.
pub open spec fn word_at(b: Seq<u8>, p: int) -> int {
    be_u32(b.subrange(p, p + 4))
}

/// `p` moved on to the next multiple of four, unless it is one already.
pub open spec fn align4(p: int) -> int {
    if p % 4 == 0 {
        p
    } else {
        p - p % 4 + 4
    }
}

/// The position after the `FDT_NOP` tokens at `p` (each skipped eight bytes at a time), or
/// `None` where a token runs past the end.
pub open spec fn skip_nops(b: Seq<u8>, p: int) -> Option<int>
    decreases b.len() - p,
{
    if p < 0 || p + 4 > b.len() {
        None
    } else if word_at(b, p) != FDT_NOP {
        Some(p)
    } else if p + 8 > b.len() {
        None
    } else {
        skip_nops(b, p + 8)
    }
}

/// The node that starts at `p` of the structure block `b`, with property names looked up in
/// `s`, and the position after it; `None` where the bytes are not such a node.
pub open spec fn parse_node(b: Seq<u8>, s: Seq<u8>, p: int) -> Option<(NodeSpec, int)>
    decreases b.len() - p, 0int,
{
    match skip_nops(b, p) {
        None => None,
        Some(q) => {
            if q < p || word_at(b, q) != FDT_BEGIN_NODE || !has_str_at(b, q + 4) {
                None
            } else {
                proof {
                    lemma_first_nul(b, q + 4);
                }
                let name = b.subrange(q + 4, first_nul(b, q + 4));
                let q2 = first_nul(b, q + 4) + 1;
                if q2 % 4 != 0 && q2 - q2 % 4 + 4 > usize::MAX {
                    None
                } else if align4(q2) > b.len() {
                    None
                } else {
                    match parse_items(b, s, align4(q2), Seq::empty(), Seq::empty()) {
                        None => None,
                        Some((props, children, e)) => Some(
                            (NodeSpec { name, props, children }, e),
                        ),
                    }
                }
            }
        },
    }
}

/// The properties and children that follow a node's name, from `p` on, after those already
/// read (`props`, `children`), and the position after the node's last token.
pub open spec fn parse_items(
    b: Seq<u8>,
    s: Seq<u8>,
    p: int,
    props: Seq<(Seq<u8>, Seq<u8>)>,
    children: Seq<NodeSpec>,
) -> Option<(Seq<(Seq<u8>, Seq<u8>)>, Seq<NodeSpec>, int)>
    decreases b.len() - p, 1int,
{
    if p < 0 || p + 4 > b.len() {
        None
    } else if word_at(b, p) == FDT_BEGIN_NODE {
        match parse_node(b, s, p) {
            None => None,
            Some((c, e)) => if p < e <= b.len() {
                parse_items(b, s, e, props, children.push(c))
            } else {
                None
            },
        }
    } else if word_at(b, p) == FDT_END_NODE || word_at(b, p) == FDT_NOP {
        Some((props, children, p + 4))
    } else if word_at(b, p) == FDT_PROP {
        if p + 12 > b.len() {
            None
        } else {
            let len = word_at(b, p + 4);
            let off = word_at(b, p + 8);
            let q = p + 12 + len;
            if !has_str_at(s, off) || q > b.len() || align4(q) > b.len() {
                None
            } else if q % 4 != 0 && q - q % 4 + 4 > usize::MAX {
                None
            } else {
                let prop = (s.subrange(off, first_nul(s, off)), b.subrange(p + 12, q));
                parse_items(b, s, align4(q), props.push(prop), children)
            }
        }
    } else {
        Some((props, children, p))
    }
}

/// A node of a decoded device tree: its name, its properties (name and value) and its
/// children.
pub struct DeviceTreeNode<'a> {
    name: &'a str,
    properties: Vec<(&'a str, &'a [u8])>,
    pub childeren: Vec<DeviceTreeNode<'a>>,
}

impl<'a> DeviceTreeNode<'a> {
    /// The node as plain values.
    pub closed spec fn view_node(&self) -> NodeSpec
        decreases self,
    {
        NodeSpec {
            name: self.name.spec_bytes(),
            props: Seq::new(
                self.properties@.len(),
                |i: int| (self.properties@[i].0.spec_bytes(), self.properties@[i].1@),
            ),
            children: Seq::new(
                self.childeren@.len(),
                |i: int|
                    if 0 <= i < self.childeren@.len() {
                        self.childeren@[i].view_node()
                    } else {
                        arbitrary()
                    },
            ),
        }
    }
}

/// The properties as plain values.
pub open spec fn props_view<'a>(v: Seq<(&'a str, &'a [u8])>) -> Seq<(Seq<u8>, Seq<u8>)> {
    Seq::new(v.len(), |i: int| (v[i].0.spec_bytes(), v[i].1@))
}

/// The nodes as plain values.
pub open spec fn nodes_view<'a>(v: Seq<DeviceTreeNode<'a>>) -> Seq<NodeSpec> {
    Seq::new(v.len(), |i: int| v[i].view_node())
}

impl<'a> DeviceTreeNode<'a> {
    proof fn lemma_view(&self)
        ensures
            self.view_node() == (NodeSpec {
                name: self.name.spec_bytes(),
                props: props_view(self.properties@),
                children: nodes_view(self.childeren@),
            }),
    {
        assert(self.view_node().props =~= props_view(self.properties@));
        assert(self.view_node().children =~= nodes_view(self.childeren@));
    }
}

/// Checks that `p` can move on to a multiple of four without overflow.
fn can_align4(p: usize) -> (r: bool)
    ensures
        r <==> (p % 4 == 0 || p - p % 4 + 4 <= usize::MAX),
{
    p % 4 == 0 || p - p % 4 <= usize::MAX - 4
}

/// Reads the node at the reader's position, with property names looked up in `strings`;
/// `None` where the bytes there are not a node.
fn parse_node_at<'a>(nodes: &mut BytesReader<'a>, strings: &'a [u8]) -> (r: Option<
    DeviceTreeNode<'a>,
>)
    ensures
        final(nodes).data() == old(nodes).data(),
        match parse_node(old(nodes).data(), strings@, old(nodes).at()) {
            None => r is None,
            Some((n, e)) => r matches Some(x) && x.view_node() == n && final(nodes).at() == e,
        },
    decreases old(nodes).data().len() - old(nodes).at(),
{
    let ghost b = nodes.data();
    let ghost s = strings@;
    let ghost p0 = nodes.at();
    let len = nodes.len();
    if nodes.pos() > len {
        return None;
    }
    loop
        invariant
            nodes.data() == b,
            len == b.len(),
            old(nodes).data() == b,
            old(nodes).at() == p0,
            strings@ == s,
            p0 <= nodes.at() <= len,
            skip_nops(b, nodes.at()) == skip_nops(b, p0),
        ensures
            nodes.data() == b,
            p0 <= nodes.at() <= len - 4,
            skip_nops(b, p0) == Some(nodes.at() as int),
        decreases len - nodes.at(),
    {
        if len - nodes.pos() < 4 {
            return None;
        }
        if nodes.peek_u32_be() != FDT_NOP {
            break;
        }
        if len - nodes.pos() < 8 {
            return None;
        }
        nodes.read_u64_be();
    }
    let ghost q = nodes.at();
    let token = nodes.read_u32_be();
    if token != FDT_BEGIN_NODE {
        return None;
    }
    let name = match nodes.try_null_term_str() {
        Some(n) => n,
        None => return None,
    };
    proof {
        lemma_first_nul(b, q + 4);
    }
    if !can_align4(nodes.pos()) {
        return None;
    }
    nodes.align_to(4);
    if nodes.pos() > len {
        return None;
    }
    let ghost start = nodes.at();
    assert(parse_node(b, s, p0) == match parse_items(b, s, start, Seq::empty(), Seq::empty()) {
        None => None,
        Some((props, children, e)) => Some(
            (NodeSpec { name: name.spec_bytes(), props, children }, e),
        ),
    });
    let mut properties: Vec<(&'a str, &'a [u8])> = Vec::new();
    let mut childeren: Vec<DeviceTreeNode<'a>> = Vec::new();
    assert(props_view(properties@) =~= Seq::empty());
    assert(nodes_view(childeren@) =~= Seq::empty());
    loop
        invariant_except_break
            parse_items(b, s, nodes.at(), props_view(properties@), nodes_view(childeren@))
                == parse_items(b, s, start, Seq::empty(), Seq::empty()),
        invariant
            nodes.data() == b,
            old(nodes).data() == b,
            old(nodes).at() == p0,
            parse_node(b, s, p0) == match parse_items(b, s, start, Seq::empty(), Seq::empty()) {
                None => None,
                Some((props, children, e)) => Some(
                    (NodeSpec { name: name.spec_bytes(), props, children }, e),
                ),
            },
            strings@ == s,
            len == b.len(),
            p0 < start <= nodes.at() <= len,
        ensures
            nodes.data() == b,
            parse_items(b, s, start, Seq::empty(), Seq::empty()) == Some(
                (props_view(properties@), nodes_view(childeren@), nodes.at() as int),
            ),
        decreases len - nodes.at(),
    {
        let p = nodes.pos();
        if len - p < 4 {
            return None;
        }
        let t = nodes.peek_u32_be();
        if t == FDT_BEGIN_NODE {
            let child = match parse_node_at(nodes, strings) {
                Some(c) => c,
                None => return None,
            };
            if nodes.pos() <= p || nodes.pos() > len {
                return None;
            }
            let ghost before = nodes_view(childeren@);
            childeren.push(child);
            assert(nodes_view(childeren@) =~= before.push(child.view_node()));
        } else if t == FDT_END_NODE || t == FDT_NOP {
            nodes.read_u32_be();
            break;
        } else if t == FDT_PROP {
            if len - p < 12 {
                return None;
            }
            nodes.read_u32_be();
            let prop_len = nodes.read_u32_be();
            let name_off = nodes.read_u32_be();
            let mut name_off = name_off as usize;
            let prop_name = match try_read_null_term_str(strings, &mut name_off) {
                Some(n) => n,
                None => return None,
            };
            if len - nodes.pos() < prop_len as usize {
                return None;
            }
            let prop_val = nodes.read_bytes(prop_len as usize);
            if !can_align4(nodes.pos()) {
                return None;
            }
            nodes.align_to(4);
            if nodes.pos() > len {
                return None;
            }
            let ghost before = props_view(properties@);
            properties.push((prop_name, prop_val));
            assert(props_view(properties@) =~= before.push(
                (prop_name.spec_bytes(), prop_val@),
            ));
        } else {
            break;
        }
    }
    let node = DeviceTreeNode { name, properties, childeren };
    proof {
        node.lemma_view();
    }
    Some(node)
}

/// A whole device tree as plain values: the words of its header, its memory reservations
/// (address and size) and its root node.
pub struct DtbSpec {
    pub header: Seq<int>,
    pub reserved: Seq<(int, int)>,
    pub root: NodeSpec,
}

/// The entries of a memory reservation block from `p` on, up to the first entry whose address or
/// size is zero; `None` where an entry runs past the end.
pub open spec fn reserve_entries(b: Seq<u8>, p: int) -> Option<Seq<(int, int)>>
    decreases b.len() - p,
{
    if p < 0 || p + 16 > b.len() {
        None
    } else {
        let addr = be_u64(b.subrange(p, p + 8));
        let size = be_u64(b.subrange(p + 8, p + 16));
        if addr != 0 && size != 0 {
            match reserve_entries(b, p + 16) {
                None => None,
                Some(rest) => Some(seq![(addr, size)] + rest),
            }
        } else {
            Some(Seq::empty())
        }
    }
}

/// The device tree that the blob `b` holds; `None` where it holds none (a short header, a total
/// size other than the blob's, a version other than 17, or a block out of bounds or malformed).
pub open spec fn parse_dtb(b: Seq<u8>) -> Option<DtbSpec> {
    let h = Seq::new(10, |i: int| word_at(b, 4 * i));
    if b.len() < 40 || h[1] != b.len() || h[5] != 17 || h[4] > b.len() || h[2] + h[9] > b.len()
        || h[3] + h[8] > b.len() {
        None
    } else {
        match reserve_entries(b.subrange(h[4], b.len() as int), 0) {
            None => None,
            Some(reserved) => match parse_node(
                b.subrange(h[2], h[2] + h[9]),
                b.subrange(h[3], h[3] + h[8]),
                0,
            ) {
                None => None,
                Some((root, _)) => Some(DtbSpec { header: h, reserved, root }),
            },
        }
    }
}

/// Memory reservation entries as plain values.
pub open spec fn reserved_view(v: Seq<FdtReserveEntry>) -> Seq<(int, int)> {
    Seq::new(v.len(), |i: int| (v[i].addr as int, v[i].size as int))
}

/// A flattened device tree blob.
pub struct Dtb(pub &'static [u8]);

/// A decoded device tree: the blob's header, its memory reservations and its root node.
pub struct DeviceTree<'a> {
    header: Header,
    reserved: Vec<FdtReserveEntry>,
    root: DeviceTreeNode<'a>,
}

impl<'a> DeviceTree<'a> {
    /// The tree as plain values.
    pub closed spec fn view_tree(&self) -> DtbSpec {
        DtbSpec {
            header: seq![
                self.header.magic as int,
                self.header.totalsize as int,
                self.header.off_dt_struct as int,
                self.header.off_dt_string as int,
                self.header.off_mem_rsvmap as int,
                self.header.version as int,
                self.header.last_comp_version as int,
                self.header.boot_cpuid_phys as int,
                self.header.size_dt_strings as int,
                self.header.size_dt_struct as int,
            ],
            reserved: reserved_view(self.reserved@),
            root: self.root.view_node(),
        }
    }
}

/// Reads the memory reservation entry at the reader's position: `None` where its address or
/// size is zero.
fn read_fdt_reserve_entry(entries: &mut BytesReader) -> (r: Option<FdtReserveEntry>)
    requires
        old(entries).at() + 16 <= old(entries).data().len(),
    ensures
        final(entries).data() == old(entries).data(),
        final(entries).at() == old(entries).at() + 16,
        ({
            let b = old(entries).data();
            let p = old(entries).at();
            let addr = be_u64(b.subrange(p, p + 8));
            let size = be_u64(b.subrange(p + 8, p + 16));
            if addr != 0 && size != 0 {
                r matches Some(e) && e.addr == addr && e.size == size
            } else {
                r is None
            }
        }),
{
    let addr = entries.read_u64_be();
    let size = entries.read_u64_be();
    if addr != 0 && size != 0 {
        Some(FdtReserveEntry { addr, size })
    } else {
        None
    }
}

/// Decodes the device tree blob `dtb`; `None` where it holds no device tree.
pub fn try_decode_dtb<'a, 'b: 'a>(dtb: &'b Dtb) -> (r: Option<DeviceTree<'a>>)
    ensures
        match parse_dtb(dtb.0@) {
            None => r is None,
            Some(t) => r matches Some(tree) && tree.view_tree() == t,
        },
{
    let bytes: &'a [u8] = dtb.0;
    let ghost b = bytes@;
    proof {
        lemma_slice_len(bytes);
    }
    let len = bytes.len();
    if len < 40 {
        return None;
    }
    let mut reader = BytesReader::new(bytes);
    let header = Header {
        magic: reader.read_u32_be(),
        totalsize: reader.read_u32_be(),
        off_dt_struct: reader.read_u32_be(),
        off_dt_string: reader.read_u32_be(),
        off_mem_rsvmap: reader.read_u32_be(),
        version: reader.read_u32_be(),
        last_comp_version: reader.read_u32_be(),
        boot_cpuid_phys: reader.read_u32_be(),
        size_dt_strings: reader.read_u32_be(),
        size_dt_struct: reader.read_u32_be(),
    };
    let ghost h = Seq::new(10, |i: int| word_at(b, 4 * i));
    assert(h[0] == header.magic && h[1] == header.totalsize && h[2] == header.off_dt_struct
        && h[3] == header.off_dt_string && h[4] == header.off_mem_rsvmap && h[5] == header.version
        && h[6] == header.last_comp_version && h[7] == header.boot_cpuid_phys && h[8]
        == header.size_dt_strings && h[9] == header.size_dt_struct);
    if len != header.totalsize as usize || header.version != 17 {
        return None;
    }
    let rsv = header.off_mem_rsvmap as usize;
    let st = header.off_dt_struct as usize;
    let sz = header.size_dt_struct as usize;
    let so = header.off_dt_string as usize;
    let ss = header.size_dt_strings as usize;
    if rsv > len || st > len || sz > len - st || so > len || ss > len - so {
        return None;
    }
    let mut reader = BytesReader::new(&bytes[rsv..len]);
    let ghost rb = b.subrange(rsv as int, len as int);
    let mut reserved: Vec<FdtReserveEntry> = Vec::new();
    assert(reserved_view(reserved@) + reserve_entries(rb, 0).unwrap() =~= reserve_entries(
        rb,
        0,
    ).unwrap());
    loop
        invariant_except_break
            reserve_entries(rb, 0) == match reserve_entries(rb, reader.at()) {
                None => None,
                Some(rest) => Some(reserved_view(reserved@) + rest),
            },
        invariant
            reserve_entries(rb, 0) is None ==> parse_dtb(dtb.0@) is None,
            reader.data() == rb,
            rb.len() == len - rsv,
            0 <= reader.at() <= rb.len(),
        ensures
            reserve_entries(rb, 0) == Some(reserved_view(reserved@)),
        decreases rb.len() - reader.at(),
    {
        if reader.len() - reader.pos() < 16 {
            return None;
        }
        let ghost before = reserved_view(reserved@);
        let ghost p = reader.at();
        match read_fdt_reserve_entry(&mut reader) {
            Some(e) => {
                reserved.push(e);
                assert(reserved_view(reserved@) =~= before.push((e.addr as int, e.size as int)));
                proof {
                    let rest = reserve_entries(rb, reader.at());
                    if rest is Some {
                        assert(before + (seq![(e.addr as int, e.size as int)] + rest.unwrap())
                            =~= reserved_view(reserved@) + rest.unwrap());
                    }
                }
            },
            None => {
                assert(before + Seq::<(int, int)>::empty() =~= before);
                break;
            },
        }
    }
    let mut nodes = BytesReader::new(&bytes[st..(st + sz)]);
    let strings = &bytes[so..(so + ss)];
    let root = match parse_node_at(&mut nodes, strings) {
        Some(r) => r,
        None => return None,
    };
    let tree = DeviceTree { header, reserved, root };
    assert(tree.view_tree().header =~= h);
    Some(tree)
}

/// Decodes the device tree blob `dtb`.
pub fn decode_dtb<'a, 'b: 'a>(dtb: &'b Dtb) -> (r: DeviceTree<'a>)
    requires
        parse_dtb(dtb.0@) is Some,
    ensures
        r.view_tree() == parse_dtb(dtb.0@).unwrap(),
{
    match try_decode_dtb(dtb) {
        Some(t) => t,
        None => vstd::pervasive::unreached(),
    }
}

/// The byte `/`, which separates the names in a path.
pub const SLASH: u8 = 0x2f;

/// The byte `@`, which separates a node's unit name from its unit address.
pub const AT: u8 = 0x40;

/// A node's name up to its `@`, or the whole name where it has none.
pub open spec fn unit_name_of(name: Seq<u8>) -> Seq<u8> {
    match split_once(name, AT) {
        Some((n, _)) => n,
        None => name,
    }
}

/// The part of a node's name after its `@`, if it has one.
pub open spec fn unit_addr_of(name: Seq<u8>) -> Option<Seq<u8>> {
    match split_once(name, AT) {
        Some((_, a)) => Some(a),
        None => None,
    }
}

/// Holds of the nodes whose unit name is `want`.
pub open spec fn has_unit_name(want: Seq<u8>) -> spec_fn(NodeSpec) -> bool {
    |c: NodeSpec| unit_name_of(c.name) == want
}

/// The index of the first node of `cs` from `i` on that `pred` holds of.
pub open spec fn find_node(cs: Seq<NodeSpec>, pred: spec_fn(NodeSpec) -> bool, i: int) -> Option<
    int,
>
    decreases cs.len() - i,
{
    if i < 0 || i >= cs.len() {
        None
    } else if pred(cs[i]) {
        Some(i)
    } else {
        find_node(cs, pred, i + 1)
    }
}

/// The nodes below `n` that `path` names: its first names pick, at each level, the first child
/// with that unit name; its last name picks every child with that unit name.
pub open spec fn children_at(n: NodeSpec, path: Seq<u8>) -> Seq<NodeSpec>
    decreases path.len(),
{
    match split_once(path, SLASH) {
        Some((first, rest)) => {
            proof {
                lemma_find_byte(path, SLASH, 0);
            }
            match find_node(n.children, has_unit_name(first), 0) {
                Some(i) => children_at(n.children[i], rest),
                None => Seq::empty(),
            }
        },
        None => n.children.filter(has_unit_name(path)),
    }
}

/// The last name of a path: what follows its last `/`.
pub open spec fn last_name(path: Seq<u8>) -> Seq<u8>
    decreases path.len(),
{
    match split_once(path, SLASH) {
        Some((_, rest)) => {
            proof {
                lemma_find_byte(path, SLASH, 0);
            }
            last_name(rest)
        },
        None => path,
    }
}

/// Every node that a path names has the path's last name as its unit name.
pub proof fn lemma_children_at_named(n: NodeSpec, path: Seq<u8>)
    ensures
        forall|i: int|
            0 <= i < children_at(n, path).len() ==> unit_name_of(
                #[trigger] children_at(n, path)[i].name,
            ) == last_name(path),
    decreases path.len(),
{
    lemma_find_byte(path, SLASH, 0);
    match split_once(path, SLASH) {
        Some((first, rest)) => {
            match find_node(n.children, has_unit_name(first), 0) {
                Some(i) => {
                    lemma_find_node_bounds(n.children, has_unit_name(first), 0);
                    lemma_children_at_named(n.children[i], rest);
                    assert(children_at(n, path) == children_at(n.children[i], rest));
                    assert(last_name(path) == last_name(rest));
                },
                None => {
                    assert(children_at(n, path) =~= Seq::<NodeSpec>::empty());
                },
            }
        },
        None => {
            let pred = has_unit_name(path);
            assert(children_at(n, path) == n.children.filter(pred));
            assert(last_name(path) == path);
            assert forall|i: int| 0 <= i < n.children.filter(pred).len() implies unit_name_of(
                #[trigger] n.children.filter(pred)[i].name,
            ) == path by {
                n.children.lemma_filter_pred(pred, i);
            }
        },
    }
}

/// `find_node` gives the index of a node of the sequence.
proof fn lemma_find_node_bounds(cs: Seq<NodeSpec>, pred: spec_fn(NodeSpec) -> bool, i: int)
    requires
        0 <= i,
    ensures
        find_node(cs, pred, i) matches Some(k) ==> i <= k < cs.len(),
    decreases cs.len() - i,
{
    if i < cs.len() && !pred(cs[i]) {
        lemma_find_node_bounds(cs, pred, i + 1);
    }
}

/// `find_node` gives the first index from `i` on that `pred` holds at.
proof fn lemma_find_node_first(cs: Seq<NodeSpec>, pred: spec_fn(NodeSpec) -> bool, i: int, k: int)
    requires
        0 <= i <= k < cs.len(),
        pred(cs[k]),
        forall|j: int| i <= j < k ==> !pred(cs[j]),
    ensures
        find_node(cs, pred, i) == Some(k),
    decreases k - i,
{
    if i < k {
        lemma_find_node_first(cs, pred, i + 1, k);
    }
}

/// `find_node` gives nothing where `pred` holds at no index from `i` on.
proof fn lemma_find_node_none(cs: Seq<NodeSpec>, pred: spec_fn(NodeSpec) -> bool, i: int)
    requires
        0 <= i,
        forall|j: int| i <= j < cs.len() ==> !pred(cs[j]),
    ensures
        find_node(cs, pred, i) is None,
    decreases cs.len() - i,
{
    if i < cs.len() {
        lemma_find_node_none(cs, pred, i + 1);
    }
}

/// A node's unit name is its name up to its first `@`, and its unit address what follows; a
/// name without `@` is its own unit name and has no unit address.
pub proof fn lemma_unit_name(u: Seq<u8>, a: Seq<u8>)
    ensures
        !u.contains(AT) ==> unit_name_of(u + seq![AT] + a) == u && unit_addr_of(
            u + seq![AT] + a,
        ) == Some(a),
        !u.contains(AT) ==> unit_name_of(u) == u && unit_addr_of(u) is None,
{
    if !u.contains(AT) {
        lemma_split_once_at(u, AT, a);
        lemma_split_once_none(u, AT);
    }
}

/// A path of a first name, a `/` and the rest names what the rest names below the first child
/// whose unit name (its name up to an `@`) is the first name, and nothing where no child has
/// it; a path of one name names every child with that unit name, in order.
pub proof fn lemma_children_at_names(n: NodeSpec, first: Seq<u8>, rest: Seq<u8>)
    requires
        !first.contains(SLASH),
    ensures
        forall|i: int|
            0 <= i < n.children.len() && unit_name_of(#[trigger] n.children[i].name) == first && (
            forall|j: int| 0 <= j < i ==> unit_name_of(n.children[j].name) != first)
                ==> children_at(n, first + seq![SLASH] + rest) == children_at(n.children[i], rest),
        (forall|j: int| 0 <= j < n.children.len() ==> unit_name_of(n.children[j].name) != first)
            ==> children_at(n, first + seq![SLASH] + rest) == Seq::<NodeSpec>::empty(),
        children_at(n, first) == n.children.filter(|c: NodeSpec| unit_name_of(c.name) == first),
{
    let path = first + seq![SLASH] + rest;
    lemma_split_once_at(first, SLASH, rest);
    let pred = has_unit_name(first);
    assert forall|i: int|
        0 <= i < n.children.len() && unit_name_of(#[trigger] n.children[i].name) == first && (
        forall|j: int| 0 <= j < i ==> unit_name_of(n.children[j].name) != first) implies
        children_at(n, path) == children_at(n.children[i], rest) by {
        lemma_find_node_first(n.children, pred, 0, i);
    }
    if forall|j: int| 0 <= j < n.children.len() ==> unit_name_of(n.children[j].name) != first {
        lemma_find_node_none(n.children, pred, 0);
        assert(children_at(n, path) =~= Seq::<NodeSpec>::empty());
    }
    lemma_split_once_none(first, SLASH);
    assert(pred =~= (|c: NodeSpec| unit_name_of(c.name) == first));
}

/// The node that the last name of a path picks: with a unit address `a`, the node named `name`,
/// `@` and `a`; without one, the node named `name`.
pub open spec fn names_node(c: NodeSpec, name: Seq<u8>, unit_addr: Option<Seq<u8>>) -> bool {
    match unit_addr {
        Some(a) => c.name == name + seq![AT] + a,
        None => c.name == name,
    }
}

/// The cell count that property `prop` of `n` gives, or `dflt` where `n` does not have it.
pub open spec fn cells_or(n: NodeSpec, prop: Seq<u8>, dflt: int) -> int {
    match cell_prop(n, prop) {
        Some(v) => v,
        None => dflt,
    }
}

/// Below a node `n` whose cell-count properties can be read, a path of a first name, a `/` and
/// the rest gives what the rest gives below the first child with that unit name, where the
/// cell counts for that child's children are `n`'s own (`#address_cells` and `#size_cells`,
/// else those that `n`'s parent gives); nothing where no child has that unit name.
pub proof fn lemma_regs_first_name(
    n: NodeSpec,
    first: Seq<u8>,
    rest: Seq<u8>,
    unit_addr: Option<Seq<u8>>,
    dac: int,
    dsc: int,
)
    requires
        !first.contains(SLASH),
        cells_readable(n),
    ensures
        forall|i: int|
            0 <= i < n.children.len() && unit_name_of(#[trigger] n.children[i].name) == first && (
            forall|j: int| 0 <= j < i ==> unit_name_of(n.children[j].name) != first) ==> regs_spec(
                n,
                first + seq![SLASH] + rest,
                unit_addr,
                dac,
                dsc,
            ) == regs_spec(
                n.children[i],
                rest,
                unit_addr,
                cells_or(n, address_cells_name(), dac),
                cells_or(n, size_cells_name(), dsc),
            ),
        (forall|j: int| 0 <= j < n.children.len() ==> unit_name_of(n.children[j].name) != first)
            ==> regs_spec(n, first + seq![SLASH] + rest, unit_addr, dac, dsc) == Some(
            None::<Seq<(int, int)>>,
        ),
{
    lemma_split_once_at(first, SLASH, rest);
    let pred = has_unit_name(first);
    assert forall|i: int|
        0 <= i < n.children.len() && unit_name_of(#[trigger] n.children[i].name) == first && (
        forall|j: int| 0 <= j < i ==> unit_name_of(n.children[j].name) != first) implies regs_spec(
        n,
        first + seq![SLASH] + rest,
        unit_addr,
        dac,
        dsc,
    ) == regs_spec(
        n.children[i],
        rest,
        unit_addr,
        cells_or(n, address_cells_name(), dac),
        cells_or(n, size_cells_name(), dsc),
    ) by {
        lemma_find_node_first(n.children, pred, 0, i);
    }
    if forall|j: int| 0 <= j < n.children.len() ==> unit_name_of(n.children[j].name) != first {
        lemma_find_node_none(n.children, pred, 0);
    }
}

/// Below a node `n` whose cell-count properties can be read, a path of one name gives the
/// address ranges of the first child that it picks, read with the cell counts of `n`, the
/// child's parent: each entry is `A` big-endian address cells then `S` size cells, with `A`
/// from `n`'s `#address_cells` and `S` from its `#size_cells` (else those that `n`'s parent
/// gives), whatever cell counts the child has itself. A child without `reg` gives `Some(None)`;
/// a `reg` value that cannot be read gives `None`.
pub proof fn lemma_regs_parent_cells(
    n: NodeSpec,
    name: Seq<u8>,
    unit_addr: Option<Seq<u8>>,
    dac: int,
    dsc: int,
    i: int,
)
    requires
        !name.contains(SLASH),
        unit_addr is Some ==> !name.contains(AT),
        cells_readable(n),
        0 <= i < n.children.len(),
        names_node(n.children[i], name, unit_addr),
        forall|j: int| 0 <= j < i ==> !names_node(#[trigger] n.children[j], name, unit_addr),
    ensures
        ({
            let ac = cells_or(n, address_cells_name(), dac);
            let sc = cells_or(n, size_cells_name(), dsc);
            let w = 4 * ac + 4 * sc;
            match prop_value(n.children[i], reg_name()) {
                None => regs_spec(n, name, unit_addr, dac, dsc) == Some(None::<Seq<(int, int)>>),
                Some(v) => if reg_ok(v, ac, sc) {
                    regs_spec(n, name, unit_addr, dac, dsc) matches Some(Some(rs)) && rs.len() * w
                        == v.len() && forall|k: int|
                        0 <= k < rs.len() ==> #[trigger] rs[k] == (
                            be_cells(v.subrange(k * w, k * w + 4 * ac), ac),
                            be_cells(v.subrange(k * w + 4 * ac, k * w + w), sc),
                        )
                } else {
                    regs_spec(n, name, unit_addr, dac, dsc) is None
                },
            }
        }),
{
    lemma_split_once_none(name, SLASH);
    let ac = cells_or(n, address_cells_name(), dac);
    let sc = cells_or(n, size_cells_name(), dsc);
    let w = 4 * ac + 4 * sc;
    match unit_addr {
        Some(a) => {
            let pred = has_name_at(name, a);
            lemma_split_once_at(name, AT, a);
            assert forall|j: int| 0 <= j < i implies !pred(n.children[j]) by {
                lemma_split_once_rejoin(n.children[j].name, AT);
                assert(!names_node(n.children[j], name, unit_addr));
            }
            lemma_find_node_first(n.children, pred, 0, i);
        },
        None => {
            let pred = has_name(name);
            assert forall|j: int| 0 <= j < i implies !pred(n.children[j]) by {
                assert(!names_node(n.children[j], name, unit_addr));
            }
            lemma_find_node_first(n.children, pred, 0, i);
        },
    }
    if let Some(v) = prop_value(n.children[i], reg_name()) {
        if reg_ok(v, ac, sc) {
            let rs = parse_reg_spec(v, ac, sc);
            assert((v.len() as int) / w * w == v.len()) by (nonlinear_arith)
                requires
                    w > 0,
                    (v.len() as int) % w == 0,
            ;
        }
    }
}

/// Nodes given by reference, as plain values.
pub open spec fn refs_view<'a, 'b>(v: Seq<&'b DeviceTreeNode<'a>>) -> Seq<NodeSpec> {
    Seq::new(v.len(), |i: int| v[i].view_node())
}

/// Whether the unit name of `name` is `want`.
fn unit_name_is(name: &str, want: &[u8]) -> (r: bool)
    ensures
        r <==> unit_name_of(name.spec_bytes()) == want@,
{
    let b = name.as_bytes();
    match split_once_bytes(b, AT) {
        Some((n, _)) => bytes_eq(n, want),
        None => bytes_eq(b, want),
    }
}

impl<'a> DeviceTreeNode<'a> {
    /// The node's whole name.
    pub fn name(&self) -> (r: &str)
        ensures
            r.spec_bytes() == self.view_node().name,
    {
        proof {
            self.lemma_view();
        }
        self.name
    }

    /// The name up to its `@`, or the whole name where it has none.
    pub fn unit_name(&self) -> (r: &str)
        ensures
            r.spec_bytes() == unit_name_of(self.view_node().name),
    {
        proof {
            self.lemma_view();
        }
        match split_once_str(self.name, AT) {
            Some((n, _)) => n,
            None => self.name,
        }
    }

    /// The part of the name after its `@`, if it has one.
    pub fn unit_addr(&self) -> (r: Option<&str>)
        ensures
            match unit_addr_of(self.view_node().name) {
                None => r is None,
                Some(a) => r matches Some(s) && s.spec_bytes() == a,
            },
    {
        proof {
            self.lemma_view();
        }
        match split_once_str(self.name, AT) {
            Some((_, a)) => Some(a),
            None => None,
        }
    }

    /// The nodes below this one that `path` names (see `children_at`).
    pub fn get_childeren(&self, path: &str) -> (r: Vec<&DeviceTreeNode<'a>>)
        ensures
            refs_view(r@) == children_at(self.view_node(), path.spec_bytes()),
    {
        self.children_at_bytes(path.as_bytes())
    }

    fn children_at_bytes(&self, path: &[u8]) -> (r: Vec<&DeviceTreeNode<'a>>)
        ensures
            refs_view(r@) == children_at(self.view_node(), path@),
        decreases path@.len(),
    {
        proof {
            self.lemma_view();
            lemma_find_byte(path@, SLASH, 0);
        }
        let ghost me = self.view_node();
        match split_once_bytes(path, SLASH) {
            Some((name, child_path)) => {
                let ghost pred = has_unit_name(name@);
                let n = self.childeren.len();
                let mut i: usize = 0;
                while i < n
                    invariant
                        n == self.childeren@.len(),
                        me == self.view_node(),
                        me.children == nodes_view(self.childeren@),
                        pred == has_unit_name(name@),
                        split_once(path@, SLASH) == Some((name@, child_path@)),
                        child_path@.len() < path@.len(),
                        0 <= i <= n,
                        find_node(me.children, pred, 0) == find_node(me.children, pred, i as int),
                    decreases n - i,
                {
                    let child = &self.childeren[i];
                    proof {
                        child.lemma_view();
                        assert(me.children[i as int] == child.view_node());
                    }
                    if unit_name_is(child.name, name) {
                        return child.children_at_bytes(child_path);
                    }
                    i = i + 1;
                }
                let r = Vec::new();
                assert(refs_view(r@) =~= Seq::empty());
                r
            },
            None => {
                let ghost pred = has_unit_name(path@);
                let mut found: Vec<&DeviceTreeNode<'a>> = Vec::new();
                let n = self.childeren.len();
                let mut i: usize = 0;
                assert(refs_view(found@) =~= me.children.take(0).filter(pred)) by {
                    reveal(Seq::filter);
                }
                while i < n
                    invariant
                        n == self.childeren@.len(),
                        me == self.view_node(),
                        me.children == nodes_view(self.childeren@),
                        pred == has_unit_name(path@),
                        0 <= i <= n,
                        refs_view(found@) == me.children.take(i as int).filter(pred),
                    decreases n - i,
                {
                    let child = &self.childeren[i];
                    proof {
                        child.lemma_view();
                        assert(me.children[i as int] == child.view_node());
                        assert(me.children.take(i + 1).last() == child.view_node());
                        assert(me.children.take(i + 1).drop_last() =~= me.children.take(i as int));
                        reveal(Seq::filter);
                    }
                    let ghost before = refs_view(found@);
                    if unit_name_is(child.name, path) {
                        found.push(child);
                        assert(refs_view(found@) =~= before.push(child.view_node()));
                    } else {
                        assert(refs_view(found@) =~= before);
                    }
                    i = i + 1;
                }
                assert(me.children.take(n as int) =~= me.children);
                found
            },
        }
    }
}

/// The index of the first property named `name` from `i` on.
pub open spec fn prop_index(props: Seq<(Seq<u8>, Seq<u8>)>, name: Seq<u8>, i: int) -> Option<int>
    decreases props.len() - i,
{
    if i < 0 || i >= props.len() {
        None
    } else if props[i].0 == name {
        Some(i)
    } else {
        prop_index(props, name, i + 1)
    }
}

/// `prop_index` gives a property with that name.
pub proof fn lemma_prop_index(props: Seq<(Seq<u8>, Seq<u8>)>, name: Seq<u8>, i: int)
    requires
        0 <= i,
    ensures
        prop_index(props, name, i) matches Some(k) ==> i <= k < props.len() && props[k].0 == name,
    decreases props.len() - i,
{
    if i < props.len() && props[i].0 != name {
        lemma_prop_index(props, name, i + 1);
    }
}

/// The value of the first property of `n` named `name`, if there is one.
pub open spec fn prop_value(n: NodeSpec, name: Seq<u8>) -> Option<Seq<u8>> {
    match prop_index(n.props, name, 0) {
        Some(i) => Some(n.props[i].1),
        None => None,
    }
}

/// The name of the property that gives the number of address cells.
pub open spec fn address_cells_name() -> Seq<u8> {
    "#address_cells".spec_bytes()
}

/// The name of the property that gives the number of size cells.
pub open spec fn size_cells_name() -> Seq<u8> {
    "#size_cells".spec_bytes()
}

/// The name of the property that gives a node's address ranges.
pub open spec fn reg_name() -> Seq<u8> {
    "reg".spec_bytes()
}

/// The big-endian word that the first four bytes of property `name` of `n` hold, if `n` has
/// that property.
pub open spec fn cell_prop(n: NodeSpec, name: Seq<u8>) -> Option<int> {
    match prop_value(n, name) {
        Some(v) => Some(be_u32(v.subrange(0, 4))),
        None => None,
    }
}

/// The cell-count properties of `n` that are there hold at least four bytes.
pub open spec fn cells_readable(n: NodeSpec) -> bool {
    &&& prop_value(n, address_cells_name()) matches Some(v) ==> v.len() >= 4
    &&& prop_value(n, size_cells_name()) matches Some(v) ==> v.len() >= 4
}

/// An optional `u32` as an optional integer.
pub open spec fn opt_int(o: Option<u32>) -> Option<int> {
    match o {
        Some(v) => Some(v as int),
        None => None,
    }
}

/// The big-endian value of the first `k` four-byte cells of `b`.
pub open spec fn be_cells(b: Seq<u8>, k: int) -> int
    decreases k,
{
    if k <= 0 {
        0
    } else {
        be_cells(b, k - 1) * 0x1_0000_0000 + word_at(b, 4 * (k - 1))
    }
}

/// `k` cells can be shifted into a `usize` without a shift past its width.
pub open spec fn cells_fit(k: int) -> bool {
    k == 0 || 32 * (k - 1) < usize::BITS
}

/// A `reg` value with `ac` address cells and `sc` size cells can be read: its entries are not
/// empty, it holds whole entries, and their cells fit in a `usize`.
pub open spec fn reg_ok(v: Seq<u8>, ac: int, sc: int) -> bool {
    &&& 0 < 4 * ac + 4 * sc <= usize::MAX
    &&& (v.len() as int) % (4 * ac + 4 * sc) == 0
    &&& v.len() > 0 ==> cells_fit(ac) && cells_fit(sc)
}

/// The (address, size) pairs of a `reg` value with `ac` address cells and `sc` size cells.
pub open spec fn parse_reg_spec(v: Seq<u8>, ac: int, sc: int) -> Seq<(int, int)> {
    let w = 4 * ac + 4 * sc;
    Seq::new(
        ((v.len() as int) / w) as nat,
        |k: int|
            (
                be_cells(v.subrange(k * w, k * w + 4 * ac), ac),
                be_cells(v.subrange(k * w + 4 * ac, k * w + w), sc),
            ),
    )
}

/// (address, size) pairs as plain values.
pub open spec fn pairs_view(v: Seq<(usize, usize)>) -> Seq<(int, int)> {
    Seq::new(v.len(), |i: int| (v[i].0 as int, v[i].1 as int))
}

/// Holds of the nodes named `name` exactly.
pub open spec fn has_name(name: Seq<u8>) -> spec_fn(NodeSpec) -> bool {
    |c: NodeSpec| c.name == name
}

/// Holds of the nodes whose name is `name`, an `@` and `addr`.
pub open spec fn has_name_at(name: Seq<u8>, addr: Seq<u8>) -> spec_fn(NodeSpec) -> bool {
    |c: NodeSpec| split_once(c.name, AT) == Some((name, addr))
}

/// The address ranges of the node that `path` names below `n`, with `dac` and `dsc` the cell
/// counts that `n`'s parent gives: `Some(None)` where there is no such node or it has no `reg`
/// property; `None` where a cell-count property on the way is shorter than a word or the `reg`
/// value cannot be read.
pub open spec fn regs_spec(
    n: NodeSpec,
    path: Seq<u8>,
    unit_addr: Option<Seq<u8>>,
    dac: int,
    dsc: int,
) -> Option<Option<Seq<(int, int)>>>
    decreases path.len(),
{
    if !cells_readable(n) {
        None
    } else {
        let ac = match cell_prop(n, address_cells_name()) {
            Some(v) => v,
            None => dac,
        };
        let sc = match cell_prop(n, size_cells_name()) {
            Some(v) => v,
            None => dsc,
        };
        match split_once(path, SLASH) {
            Some((first, rest)) => {
                proof {
                    lemma_find_byte(path, SLASH, 0);
                }
                match find_node(n.children, has_unit_name(first), 0) {
                    Some(i) => regs_spec(n.children[i], rest, unit_addr, ac, sc),
                    None => Some(None),
                }
            },
            None => {
                let found = match unit_addr {
                    Some(a) => find_node(n.children, has_name_at(path, a), 0),
                    None => find_node(n.children, has_name(path), 0),
                };
                match found {
                    None => Some(None),
                    Some(i) => match prop_value(n.children[i], reg_name()) {
                        None => Some(None),
                        Some(v) => if reg_ok(v, ac, sc) {
                            Some(Some(parse_reg_spec(v, ac, sc)))
                        } else {
                            None
                        },
                    },
                }
            },
        }
    }
}

/// `t` is a result that `parse` may give on bytes `v`.
pub open spec fn parsed_by<T, F: Fn(&[u8]) -> T>(parse: F, v: Seq<u8>, t: T) -> bool {
    exists|s: &[u8]| s@ == v && #[trigger] parse.ensures((s,), t)
}

/// The big-endian `u32` that the first four bytes of `b` hold.
fn parse_u32(b: &[u8]) -> (r: u32)
    requires
        b@.len() >= 4,
    ensures
        r == be_u32(b@.subrange(0, 4)),
{
    let mut reader = BytesReader::new(b);
    reader.read_u32_be()
}

impl<'a> DeviceTreeNode<'a> {
    /// Applies `parse` to the value of the first property named `property`, if there is one.
    pub fn get_and_parse_property<T, F: Fn(&[u8]) -> T>(&self, property: &str, parse: F) -> (r:
        Option<T>)
        requires
            forall|v: &[u8]|
                prop_value(self.view_node(), property.spec_bytes()) == Some(v@) ==> parse.requires(
                    (v,),
                ),
        ensures
            match prop_value(self.view_node(), property.spec_bytes()) {
                None => r is None,
                Some(v) => r matches Some(t) && parsed_by(parse, v, t),
            },
    {
        proof {
            self.lemma_view();
            lemma_prop_index(self.view_node().props, property.spec_bytes(), 0);
        }
        let ghost me = self.view_node();
        let want = property.as_bytes();
        let n = self.properties.len();
        let mut i: usize = 0;
        while i < n
            invariant
                n == self.properties@.len(),
                me == self.view_node(),
                me.props == props_view(self.properties@),
                want@ == property.spec_bytes(),
                0 <= i <= n,
                prop_index(me.props, want@, 0) == prop_index(me.props, want@, i as int),
                forall|v: &[u8]| prop_value(me, want@) == Some(v@) ==> parse.requires((v,)),
            decreases n - i,
        {
            let (name, value) = self.properties[i];
            if bytes_eq(name.as_bytes(), want) {
                assert(prop_value(me, want@) == Some(value@));
                let t = parse(value);
                assert(value@ == prop_value(me, want@).unwrap() && parse.ensures((value,), t));
                assert(parsed_by(parse, value@, t));
                return Some(t);
            }
            i = i + 1;
        }
        None
    }

    /// The cell counts that this node gives its children, where it gives them.
    pub fn address_size_cells(&self) -> (r: (Option<u32>, Option<u32>))
        requires
            cells_readable(self.view_node()),
        ensures
            opt_int(r.0) == cell_prop(self.view_node(), address_cells_name()),
            opt_int(r.1) == cell_prop(self.view_node(), size_cells_name()),
    {
        let address_cells = self.get_and_parse_property("#address_cells", parse_u32);
        let size_cells = self.get_and_parse_property("#size_cells", parse_u32);
        (address_cells, size_cells)
    }
}

proof fn lemma_shift_cells(c0: usize, c1: usize)
    requires
        c0 < 0x1_0000_0000,
        c1 < 0x1_0000_0000,
    ensures
        0usize | (c0 << 0u32) == c0,
        usize::BITS == 64 ==> 0usize | (c0 << 32u32) == c0 * 0x1_0000_0000,
        usize::BITS == 64 ==> (c0 * 0x1_0000_0000) as usize | (c1 << 0u32) == c0 * 0x1_0000_0000
            + c1,
{
    assert(0usize | (c0 << 0u32) == c0) by (bit_vector);
    assert(usize::BITS == 64 ==> 0usize | (c0 << 32u32) == c0 * 0x1_0000_0000) by (bit_vector)
        requires
            c0 < 0x1_0000_0000,
    ;
    assert(usize::BITS == 64 ==> (c0 * 0x1_0000_0000) as usize | (c1 << 0u32) == c0
        * 0x1_0000_0000 + c1) by (bit_vector)
        requires
            c0 < 0x1_0000_0000,
            c1 < 0x1_0000_0000,
    ;
}

/// Reads `k` big-endian cells and shifts them together into one number.
fn read_cells(reader: &mut BytesReader, k: u32) -> (r: usize)
    requires
        cells_fit(k as int),
        old(reader).at() + 4 * k <= old(reader).data().len(),
    ensures
        r == be_cells(old(reader).data().subrange(old(reader).at(), old(reader).at() + 4 * k), k as int),
        final(reader).data() == old(reader).data(),
        final(reader).at() == old(reader).at() + 4 * k,
{
    proof {
        reader.lemma_bounds();
    }
    let ghost b = reader.data();
    let ghost p = reader.at();
    let ghost c = b.subrange(p, p + 4 * k);
    let mut value: usize = 0;
    let mut i: u32 = 1;
    while i <= k
        invariant
            cells_fit(k as int),
            k <= 2,
            1 <= i <= k + 1,
            reader.data() == b,
            reader.at() == p + 4 * (i - 1),
            p + 4 * k <= b.len(),
            c == b.subrange(p, p + 4 * k),
            i == 1 ==> value == 0,
            i == 2 && k == 1 ==> value == be_cells(c, 1),
            i == 2 && k == 2 ==> value == be_cells(c, 1) * 0x1_0000_0000 && usize::BITS == 64,
            0 <= p,
            i == 3 ==> value == be_cells(c, 2),
        decreases k + 1 - i,
    {
        let ghost at = reader.at();
        let cell = reader.read_u32_be() as usize;
        assert(b.subrange(at, at + 4) =~= c.subrange(4 * (i - 1), 4 * (i - 1) + 4));
        proof {
            reveal_with_fuel(be_cells, 3);
            lemma_shift_cells(cell, cell);
            if i == 2 {
                lemma_shift_cells(be_cells(c, 1) as usize, cell);
            }
        }
        value = value | (cell << (32 * (k - i)));
        i = i + 1;
    }
    value
}

/// The (address, size) pairs of a `reg` value with `ac` address cells and `sc` size cells.
fn parse_reg(b: &[u8], ac: u32, sc: u32) -> (r: Vec<(usize, usize)>)
    requires
        reg_ok(b@, ac as int, sc as int),
    ensures
        pairs_view(r@) == parse_reg_spec(b@, ac as int, sc as int),
{
    let w = ac as usize * 4 + sc as usize * 4;
    let n = b.len();
    let mut pairs: Vec<(usize, usize)> = Vec::new();
    let mut off: usize = 0;
    while off < n
        invariant
            n == b@.len(),
            reg_ok(b@, ac as int, sc as int),
            w == 4 * ac + 4 * sc,
            (off as int) % (w as int) == 0,
            off <= n,
            pairs@.len() == (off as int) / (w as int),
            forall|j: int| 0 <= j < pairs@.len() ==> (pairs@[j].0 as int, pairs@[j].1 as int)
                == parse_reg_spec(b@, ac as int, sc as int)[j],
        decreases n - off,
    {
        assert(off + w <= n) by (nonlinear_arith)
            requires
                (off as int) % (w as int) == 0,
                (n as int) % (w as int) == 0,
                off < n,
                w > 0,
        ;
        let chunk = &b[off..(off + w)];
        let mut reader = BytesReader::new(chunk);
        let addr = read_cells(&mut reader, ac);
        let size = read_cells(&mut reader, sc);
        let ghost k = (off as int) / (w as int);
        assert(off == k * w) by (nonlinear_arith)
            requires
                (off as int) % (w as int) == 0,
                k == (off as int) / (w as int),
                w > 0,
        ;
        assert(chunk@.subrange(0, 4 * ac as int) =~= b@.subrange(k * w, k * w + 4 * ac));
        assert(chunk@.subrange(4 * ac as int, 4 * ac + 4 * sc) =~= b@.subrange(
            k * w + 4 * ac,
            k * w + w,
        ));
        assert(k < (n as int) / (w as int)) by (nonlinear_arith)
            requires
                off == k * w,
                off < n,
                (n as int) % (w as int) == 0,
                w > 0,
        ;
        assert((addr as int, size as int) == parse_reg_spec(b@, ac as int, sc as int)[k]);
        pairs.push((addr, size));
        off = off + w;
        assert((off as int) / (w as int) == k + 1 && (off as int) % (w as int) == 0) by (nonlinear_arith)
            requires
                off == k * w + w,
                w > 0,
        ;
    }
    assert(pairs@.len() == parse_reg_spec(b@, ac as int, sc as int).len());
    assert(pairs_view(pairs@) =~= parse_reg_spec(b@, ac as int, sc as int));
    pairs
}

/// An optional string as optional bytes.
pub open spec fn opt_bytes(o: Option<&str>) -> Option<Seq<u8>> {
    match o {
        Some(s) => Some(s.spec_bytes()),
        None => None,
    }
}

/// Optional (address, size) pairs as plain values.
pub open spec fn opt_pairs(o: Option<Vec<(usize, usize)>>) -> Option<Seq<(int, int)>> {
    match o {
        Some(v) => Some(pairs_view(v@)),
        None => None,
    }
}

/// Holds of the node that the last name of a path picks: with a unit address, the node with that
/// unit name and address; without one, the node with that whole name.
pub open spec fn picks(name: Seq<u8>, unit_addr: Option<Seq<u8>>) -> spec_fn(NodeSpec) -> bool {
    match unit_addr {
        Some(a) => has_name_at(name, a),
        None => has_name(name),
    }
}

/// The plain values of what `regs_spec` gives.
pub open spec fn opt_opt_pairs(o: Option<Option<Vec<(usize, usize)>>>) -> Option<
    Option<Seq<(int, int)>>,
> {
    match o {
        Some(p) => Some(opt_pairs(p)),
        None => None,
    }
}

/// Whether a `reg` value of `len` bytes with `ac` address cells and `sc` size cells can be read
/// (see `reg_ok`).
fn reg_len_ok(len: usize, ac: u32, sc: u32) -> (r: bool)
    ensures
        r == (0 < 4 * ac + 4 * sc <= usize::MAX && (len as int) % (4 * ac + 4 * sc) == 0 && (len
            > 0 ==> cells_fit(ac as int) && cells_fit(sc as int))),
{
    let w: u64 = ac as u64 * 4 + sc as u64 * 4;
    if w == 0 || w > usize::MAX as u64 {
        return false;
    }
    let w = w as usize;
    if len % w != 0 {
        return false;
    }
    if len == 0 {
        return true;
    }
    let ac_fits = ac == 0 || (ac - 1) as u64 * 32 < usize::BITS as u64;
    let sc_fits = sc == 0 || (sc - 1) as u64 * 32 < usize::BITS as u64;
    ac_fits && sc_fits
}

impl<'a> DeviceTreeNode<'a> {
    /// Whether the property `name`, where the node has it, holds at least four bytes.
    fn cell_prop_readable(&self, name: &str) -> (r: bool)
        ensures
            r <==> (prop_value(self.view_node(), name.spec_bytes()) matches Some(v) ==> v.len()
                >= 4),
    {
        let long_enough = |b: &[u8]| -> (ok: bool)
            ensures
                ok == (b@.len() >= 4),
            { b.len() >= 4 };
        let r = self.get_and_parse_property(name, long_enough);
        proof {
            if r is Some {
                let t = r.unwrap();
                let v = prop_value(self.view_node(), name.spec_bytes()).unwrap();
                let s = choose|s: &[u8]| s@ == v && #[trigger] long_enough.ensures((s,), t);
                assert(t == (v.len() >= 4));
            }
        }
        match r {
            Some(ok) => ok,
            None => true,
        }
    }

    /// Whether the cell-count properties that the node has hold a word each, as
    /// `address_size_cells` asks.
    pub fn has_readable_cells(&self) -> (r: bool)
        ensures
            r == cells_readable(self.view_node()),
    {
        let r = self.cell_prop_readable("#address_cells") && self.cell_prop_readable("#size_cells");
        proof {
            reveal_strlit("#address_cells");
            reveal_strlit("#size_cells");
        }
        r
    }

    /// The address ranges of the node that `path` names below this one (see `regs_spec`):
    /// `None` where a cell count on the way or the `reg` value cannot be read.
    fn regs_for_node_int(
        &self,
        path: &[u8],
        unit_addr: Option<&str>,
        default_addr_cells: u32,
        default_size_cells: u32,
    ) -> (r: Option<Option<Vec<(usize, usize)>>>)
        ensures
            opt_opt_pairs(r) == regs_spec(
                self.view_node(),
                path@,
                opt_bytes(unit_addr),
                default_addr_cells as int,
                default_size_cells as int,
            ),
        decreases path@.len(),
    {
        proof {
            self.lemma_view();
            lemma_find_byte(path@, SLASH, 0);
        }
        let ghost me = self.view_node();
        let ghost target = regs_spec(
            me,
            path@,
            opt_bytes(unit_addr),
            default_addr_cells as int,
            default_size_cells as int,
        );
        if !self.has_readable_cells() {
            return None;
        }
        let (addr_cells, size_cells) = self.address_size_cells();
        let addr_cells = match addr_cells {
            Some(v) => v,
            None => default_addr_cells,
        };
        let size_cells = match size_cells {
            Some(v) => v,
            None => default_size_cells,
        };
        match split_once_bytes(path, SLASH) {
            Some((name, child_path)) => {
                let ghost pred = has_unit_name(name@);
                let n = self.childeren.len();
                let mut i: usize = 0;
                while i < n
                    invariant
                        n == self.childeren@.len(),
                        me == self.view_node(),
                        me.children == nodes_view(self.childeren@),
                        pred == has_unit_name(name@),
                        split_once(path@, SLASH) == Some((name@, child_path@)),
                        child_path@.len() < path@.len(),
                        target == regs_spec(
                            me,
                            path@,
                            opt_bytes(unit_addr),
                            default_addr_cells as int,
                            default_size_cells as int,
                        ),
                        target == match find_node(me.children, pred, i as int) {
                            Some(k) => regs_spec(
                                me.children[k],
                                child_path@,
                                opt_bytes(unit_addr),
                                addr_cells as int,
                                size_cells as int,
                            ),
                            None => Some(None),
                        },
                        0 <= i <= n,
                    decreases n - i,
                {
                    let child = &self.childeren[i];
                    proof {
                        child.lemma_view();
                        assert(me.children[i as int] == child.view_node());
                    }
                    if unit_name_is(child.name, name) {
                        return child.regs_for_node_int(
                            child_path,
                            unit_addr,
                            addr_cells,
                            size_cells,
                        );
                    }
                    i = i + 1;
                }
                Some(None)
            },
            None => {
                let ghost pred = picks(path@, opt_bytes(unit_addr));
                let n = self.childeren.len();
                let mut i: usize = 0;
                while i < n
                    invariant
                        n == self.childeren@.len(),
                        me == self.view_node(),
                        me.children == nodes_view(self.childeren@),
                        pred == picks(path@, opt_bytes(unit_addr)),
                        target == regs_spec(
                            me,
                            path@,
                            opt_bytes(unit_addr),
                            default_addr_cells as int,
                            default_size_cells as int,
                        ),
                        target == match find_node(me.children, pred, i as int) {
                            None => Some(None),
                            Some(k) => match prop_value(me.children[k], reg_name()) {
                                None => Some(None),
                                Some(v) => if reg_ok(v, addr_cells as int, size_cells as int) {
                                    Some(
                                        Some(
                                            parse_reg_spec(v, addr_cells as int, size_cells as int),
                                        ),
                                    )
                                } else {
                                    None
                                },
                            },
                        },
                        0 <= i <= n,
                    decreases n - i,
                {
                    let child = &self.childeren[i];
                    proof {
                        child.lemma_view();
                        assert(me.children[i as int] == child.view_node());
                    }
                    let hit = match unit_addr {
                        Some(addr) => match split_once_bytes(child.name.as_bytes(), AT) {
                            Some((child_name, child_addr)) => bytes_eq(child_name, path)
                                && bytes_eq(child_addr, addr.as_bytes()),
                            None => false,
                        },
                        None => bytes_eq(child.name.as_bytes(), path),
                    };
                    if hit {
                        let ac = addr_cells;
                        let sc = size_cells;
                        let parse_reg_cells = |b: &[u8]| -> (pairs: Option<Vec<(usize, usize)>>)
                            ensures
                                pairs is Some <==> reg_ok(b@, ac as int, sc as int),
                                pairs matches Some(p) ==> pairs_view(p@) == parse_reg_spec(
                                    b@,
                                    ac as int,
                                    sc as int,
                                ),
                            {
                                if reg_len_ok(b.len(), ac, sc) {
                                    Some(parse_reg(b, ac, sc))
                                } else {
                                    None
                                }
                            };
                        let r = child.get_and_parse_property("reg", parse_reg_cells);
                        proof {
                            reveal_strlit("reg");
                            if r is Some {
                                let t = r.unwrap();
                                let v = prop_value(child.view_node(), reg_name()).unwrap();
                                let s = choose|s: &[u8]|
                                    s@ == v && #[trigger] parse_reg_cells.ensures((s,), t);
                                assert(t is Some <==> reg_ok(v, ac as int, sc as int));
                            }
                        }
                        return match r {
                            None => Some(None),
                            Some(None) => None,
                            Some(Some(p)) => Some(Some(p)),
                        };
                    }
                    i = i + 1;
                }
                Some(None)
            },
        }
    }
}

impl<'a> DeviceTree<'a> {
    /// The nodes that `path`, which starts with `/`, names below the root (see `children_at`).
    pub fn get_nodes(&self, path: &str) -> (r: Vec<&DeviceTreeNode<'a>>)
        requires
            path.spec_bytes().len() > 0,
            path.spec_bytes()[0] == SLASH,
        ensures
            refs_view(r@) == children_at(self.view_tree().root, path.spec_bytes().drop_first()),
    {
        let b = path.as_bytes();
        let rest = &b[1..b.len()];
        assert(rest@ =~= path.spec_bytes().drop_first());
        self.root.children_at_bytes(rest)
    }

    /// The address ranges in the `reg` property of the node that `path`, which starts with `/`,
    /// names, with cell counts of two unless a node on the way gives others (see `regs_spec`).
    pub fn regs_for_node(&self, path: &str, unit_addr: Option<&str>) -> (r: Option<
        Vec<(usize, usize)>,
    >)
        requires
            path.spec_bytes().len() > 0,
            path.spec_bytes()[0] == SLASH,
            regs_spec(
                self.view_tree().root,
                path.spec_bytes().drop_first(),
                opt_bytes(unit_addr),
                2,
                2,
            ) is Some,
        ensures
            opt_pairs(r) == regs_spec(
                self.view_tree().root,
                path.spec_bytes().drop_first(),
                opt_bytes(unit_addr),
                2,
                2,
            ).unwrap(),
    {
        match self.try_regs_for_node(path, unit_addr) {
            Some(r) => r,
            None => vstd::pervasive::unreached(),
        }
    }

    /// As `regs_for_node`, for every path: `None` where the path does not start with `/`, or a
    /// cell count on the way or the `reg` value cannot be read (see `regs_spec`).
    pub fn try_regs_for_node(&self, path: &str, unit_addr: Option<&str>) -> (r: Option<
        Option<Vec<(usize, usize)>>,
    >)
        ensures
            path.spec_bytes().len() == 0 || path.spec_bytes()[0] != SLASH ==> r is None,
            path.spec_bytes().len() > 0 && path.spec_bytes()[0] == SLASH ==> opt_opt_pairs(r)
                == regs_spec(
                self.view_tree().root,
                path.spec_bytes().drop_first(),
                opt_bytes(unit_addr),
                2,
                2,
            ),
    {
        let b = path.as_bytes();
        if b.len() == 0 || b[0] != SLASH {
            return None;
        }
        let rest = &b[1..b.len()];
        assert(rest@ =~= path.spec_bytes().drop_first());
        self.root.regs_for_node_int(rest, unit_addr, 2, 2)
    }
}

/// The name of the memory nodes, `memory`.
pub open spec fn memory_name() -> Seq<u8> {
    seq![0x6du8, 0x65, 0x6d, 0x6f, 0x72, 0x79]
}

/// The address ranges of the memory nodes `nodes` of the tree whose root is `root`, in order:
/// those that `regs_spec` gives each for its unit address; `None` where one of them has none.
pub open spec fn regions_of(root: NodeSpec, nodes: Seq<NodeSpec>) -> Option<Seq<(int, int)>>
    decreases nodes.len(),
{
    if nodes.len() == 0 {
        Some(Seq::empty())
    } else {
        match regions_of(root, nodes.drop_last()) {
            None => None,
            Some(acc) => match regs_spec(root, memory_name(), unit_addr_of(nodes.last().name), 2, 2) {
                Some(Some(r)) => Some(acc + r),
                _ => None,
            },
        }
    }
}

/// The ranges of two runs of memory nodes, one after the other, are those of the first run
/// followed by those of the second; none where either run has none.
pub proof fn lemma_regions_concat(root: NodeSpec, a: Seq<NodeSpec>, b: Seq<NodeSpec>)
    ensures
        match (regions_of(root, a), regions_of(root, b)) {
            (Some(x), Some(y)) => regions_of(root, a + b) == Some(x + y),
            _ => regions_of(root, a + b) is None,
        },
    decreases b.len(),
{
    if b.len() == 0 {
        assert(a + b =~= a);
        if let Some(x) = regions_of(root, a) {
            assert(x + Seq::<(int, int)>::empty() =~= x);
        }
    } else {
        lemma_regions_concat(root, a, b.drop_last());
        assert((a + b).drop_last() =~= a + b.drop_last());
        assert((a + b).last() == b.last());
        if let (Some(x), Some(y)) = (regions_of(root, a), regions_of(root, b)) {
            let y0 = regions_of(root, b.drop_last()).unwrap();
            let r = regs_spec(root, memory_name(), unit_addr_of(b.last().name), 2, 2).unwrap().unwrap();
            assert(x + y0 + r =~= x + (y0 + r));
        }
    }
}

/// Where the ranges of the first `k` nodes cannot be had, those of all the nodes cannot.
proof fn lemma_regions_prefix_none(root: NodeSpec, nodes: Seq<NodeSpec>, k: int)
    requires
        0 <= k <= nodes.len(),
        regions_of(root, nodes.take(k)) is None,
    ensures
        regions_of(root, nodes) is None,
    decreases nodes.len() - k,
{
    if k == nodes.len() {
        assert(nodes.take(k) =~= nodes);
    } else {
        assert(nodes.take(k + 1).drop_last() =~= nodes.take(k));
        lemma_regions_prefix_none(root, nodes, k + 1);
    }
}

impl<'a> DeviceTree<'a> {
    /// The address ranges of all the memory nodes, the nodes below the root whose unit name is
    /// `memory`, node after node (see `regions_of`); `None` where a memory node has no `reg`
    /// property that can be read.
    pub fn memory_regions(&self) -> (r: Option<Vec<(usize, usize)>>)
        ensures
            opt_pairs(r) == regions_of(
                self.view_tree().root,
                children_at(self.view_tree().root, memory_name()),
            ),
    {
        let name: Vec<u8> = vec![0x6d, 0x65, 0x6d, 0x6f, 0x72, 0x79];
        let name = name.as_slice();
        assert(name@ =~= memory_name());
        let nodes = self.root.children_at_bytes(name);
        let ghost root = self.view_tree().root;
        let ghost ns = refs_view(nodes@);
        let mut out: Vec<(usize, usize)> = Vec::new();
        let mut i: usize = 0;
        assert(ns.take(0) =~= Seq::<NodeSpec>::empty());
        assert(pairs_view(out@) =~= Seq::<(int, int)>::empty());
        while i < nodes.len()
            invariant
                name@ == memory_name(),
                ns == refs_view(nodes@),
                root == self.view_tree().root,
                root == self.root.view_node(),
                ns == children_at(root, memory_name()),
                i <= nodes@.len(),
                regions_of(root, ns.take(i as int)) == Some(pairs_view(out@)),
            decreases nodes@.len() - i,
        {
            let node = nodes[i];
            let addr = node.unit_addr();
            assert(ns.take(i + 1).drop_last() =~= ns.take(i as int));
            assert(ns.take(i + 1).last() == node.view_node());
            assert(opt_bytes(addr) == unit_addr_of(node.view_node().name));
            match self.root.regs_for_node_int(name, addr, 2, 2) {
                Some(Some(mut v)) => {
                    let ghost before = pairs_view(out@);
                    let ghost add = pairs_view(v@);
                    out.append(&mut v);
                    assert(pairs_view(out@) =~= before + add);
                },
                _ => {
                    proof {
                        lemma_regions_prefix_none(root, ns, i + 1);
                    }
                    return None;
                },
            }
            i = i + 1;
        }
        assert(ns.take(nodes@.len() as int) =~= ns);
        Some(out)
    }
}

} // verus!
