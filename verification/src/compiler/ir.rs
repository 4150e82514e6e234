//! Shared program representation and graph construction, independent of compilation phases.

use vstd::prelude::*;
use super::charset::Charset;
use super::index_vec::{IndexType, IndexVec};
use crate::runtime::{Register, REGISTER_COUNT};
use crate::text::{chars_of, char_upper, char_to_ascii_uppercase, push_char, ascii_lower, ascii_upper, to_ascii_lowercase, to_ascii_uppercase, bytes_lt, compare_bytes, lemma_bytes_lt_order, lemma_utf8_injective, str_eq, utf8_of, LexOrder};
use vstd::string::StringExecFns;
use std::collections::VecDeque;

verus! {

/// Identifies an interned charset.
#[derive(Debug, Clone, Copy, PartialEq, Eq, Structural, Hash)]
pub struct CharsetId(pub u32);

/// Identifies an interned string.
#[derive(Debug, Clone, Copy, PartialEq, Eq, Structural, Hash)]
pub struct StringId(pub u32);

/// Identifies a register: the physical ones first, then the virtual ones.
#[derive(Debug, Clone, Copy, PartialEq, Eq, Structural, Hash)]
pub struct RegId(pub u32);

/// Identifies a node of the IR graph.
#[derive(Debug, Clone, Copy, PartialEq, Eq, Structural, Hash)]
pub struct NodeId(pub u32);

impl IndexType for CharsetId {
    open spec fn idx(self) -> nat {
        self.0 as nat
    }

    fn from_usize(index: usize) -> (r: Self) {
        CharsetId(index as u32)
    }

    fn to_usize(self) -> (r: usize) {
        self.0 as usize
    }
}

impl IndexType for StringId {
    open spec fn idx(self) -> nat {
        self.0 as nat
    }

    fn from_usize(index: usize) -> (r: Self) {
        StringId(index as u32)
    }

    fn to_usize(self) -> (r: usize) {
        self.0 as usize
    }
}

impl IndexType for RegId {
    open spec fn idx(self) -> nat {
        self.0 as nat
    }

    fn from_usize(index: usize) -> (r: Self) {
        RegId(index as u32)
    }

    fn to_usize(self) -> (r: usize) {
        self.0 as usize
    }
}

impl IndexType for NodeId {
    open spec fn idx(self) -> nat {
        self.0 as nat
    }

    fn from_usize(index: usize) -> (r: Self) {
        NodeId(index as u32)
    }

    fn to_usize(self) -> (r: usize) {
        self.0 as usize
    }
}

impl RegId {
    /// Whether this is one of the machine's registers rather than a virtual one.
    pub fn is_physical(self) -> (r: bool)
        ensures
            r == (self.idx() < REGISTER_COUNT),
    {
        self.to_usize() < REGISTER_COUNT
    }
}

/// How two registers are compared.
#[derive(Debug, Clone, Copy, PartialEq, Eq, Structural)]
pub enum ComparisonOp {
    Eq,
    Ne,
    Lt,
    Gt,
    Le,
    Ge,
}

impl ComparisonOp {
    /// Whether the comparison holds between the values `a` (left) and `b` (right): an
    /// `If` testing `Cmp { lhs, rhs, op }` takes its `then` branch exactly when `op`
    /// holds between the values of `lhs` and `rhs`.
    pub open spec fn holds(self, a: int, b: int) -> bool {
        match self {
            ComparisonOp::Eq => a == b,
            ComparisonOp::Ne => a != b,
            ComparisonOp::Lt => a < b,
            ComparisonOp::Gt => a > b,
            ComparisonOp::Le => a <= b,
            ComparisonOp::Ge => a >= b,
        }
    }
}

/// What an `If` node tests.
#[derive(Debug, Clone, Copy, PartialEq, Eq, Structural)]
pub enum Condition {
    Cmp { lhs: RegId, rhs: RegId, op: ComparisonOp },
    EndOfLine,
    Charset { cs: CharsetId, min: u32, max: u32 },
    Prefix(StringId),
    PrefixInsensitive(StringId),
}

/// An IR instruction.
#[derive(Debug, Clone, Copy, PartialEq, Eq, Structural)]
pub enum Op {
    Noop,
    Mov { dst: RegId, src: RegId },
    MovImm { dst: RegId, imm: u32 },
    MovKind { dst: RegId, kind: u32 },
    AddImm { dst: RegId, imm: u32 },
    If { condition: Condition, then: NodeId },
    Call { name: StringId },
    Return,
    Flush { kind: RegId },
    AwaitInput,
}

/// A node of the IR graph: an instruction and the node that follows it.
#[derive(Debug, Clone, Copy, PartialEq, Eq, Structural)]
pub struct Node {
    pub next: Option<NodeId>,
    pub instr: Op,
}

/// A piece of straight-line IR, from its first to its last node.
#[derive(Debug, Clone, Copy, PartialEq, Eq, Structural)]
pub struct Fragment {
    pub first: NodeId,
    pub last: NodeId,
}

/// A highlight kind's name and its numeric value.
#[derive(Clone)]
pub struct HighlightKind {
    pub identifier: String,
    pub value: u32,
}

/// The attributes given to a function in the source.
#[derive(Clone)]
pub struct FunctionAttributes {
    pub display_name: Option<String>,
    pub paths: Vec<String>,
}

/// A compiled function: its name, attributes and the first node of its body.
#[derive(Clone)]
pub struct Function {
    pub name: String,
    pub attributes: FunctionAttributes,
    pub body: NodeId,
    pub public: bool,
}

/// The IR graph: nodes addressed by [`NodeId`].
pub struct Graph {
    nodes: IndexVec<NodeId, Node>,
}

/// Whether `id` addresses one of `len` nodes.
pub open spec fn id_ok(id: NodeId, len: nat) -> bool {
    id.idx() < len
}

/// Whether the edges of `node` stay within `len` nodes.
pub open spec fn edges_ok(node: Node, len: nat) -> bool {
    &&& (node.next matches Some(n) ==> id_ok(n, len))
    &&& (node.instr matches Op::If { then, .. } ==> id_ok(then, len))
}

impl Graph {
    /// The nodes in order of their ids.
    pub closed spec fn view(&self) -> Seq<Node> {
        self.nodes.view()
    }

    /// Whether every edge of the graph leads to one of its nodes.
    pub open spec fn wf(&self) -> bool {
        forall|i: int| 0 <= i < self.view().len() ==> edges_ok(#[trigger] self.view()[i], self.view().len())
    }

    /// An empty graph.
    pub fn new() -> (r: Self)
        ensures
            r.view() == Seq::<Node>::empty(),
    {
        Self { nodes: IndexVec::new() }
    }

    /// The number of nodes.
    pub fn len(&self) -> (r: usize)
        ensures
            r == self.view().len(),
    {
        self.nodes.len()
    }

    /// The node `id`.
    pub fn node(&self, id: NodeId) -> (r: &Node)
        requires
            id_ok(id, self.view().len()),
        ensures
            *r == self.view()[id.idx() as int],
    {
        self.nodes.get(id)
    }

    /// The node `id`, for changing it in place.
    pub fn node_mut(&mut self, id: NodeId) -> (r: &mut Node)
        requires
            id_ok(id, old(self).view().len()),
        ensures
            *r == old(self).view()[id.idx() as int],
            final(self).view() == old(self).view().update(id.idx() as int, *final(r)),
    {
        self.nodes.get_mut(id)
    }

    /// Appends `node` and returns its id.
    fn push(&mut self, node: Node) -> (r: NodeId)
        requires
            old(self).view().len() <= u32::MAX,
        ensures
            final(self).view() == old(self).view().push(node),
            r.idx() == old(self).view().len(),
    {
        self.nodes.push(node)
    }
}

/// Whether highlight kinds are in strictly increasing order of their identifiers' bytes.
pub open spec fn kinds_sorted(ks: Seq<HighlightKind>) -> bool {
    forall|i: int, j: int|
        0 <= i < j < ks.len() ==> bytes_lt(
            utf8_of(#[trigger] ks[i].identifier@),
            utf8_of(#[trigger] ks[j].identifier@),
        )
}

/// The whole program being compiled: the IR graph and what its nodes refer to.
pub struct Program {
    pub graph: Graph,
    pub register_count: usize,
    pub functions: Vec<Function>,
    pub charsets: IndexVec<CharsetId, Charset>,
    pub strings: IndexVec<StringId, String>,
    pub highlight_kinds: Vec<HighlightKind>,
}

impl Program {
    /// Whether `r` names an existing register.
    pub open spec fn reg_ok(&self, r: RegId) -> bool {
        r.idx() < self.register_count
    }

    /// Whether every id that `c` holds names something that exists.
    pub open spec fn condition_ok(&self, c: Condition) -> bool {
        match c {
            Condition::Cmp { lhs, rhs, .. } => self.reg_ok(lhs) && self.reg_ok(rhs),
            Condition::EndOfLine => true,
            Condition::Charset { cs, .. } => cs.idx() < self.charsets.view().len(),
            Condition::Prefix(s) => s.idx() < self.strings.view().len(),
            Condition::PrefixInsensitive(s) => s.idx() < self.strings.view().len(),
        }
    }

    /// Whether every id that `op` holds names something that exists.
    pub open spec fn op_ok(&self, op: Op) -> bool {
        match op {
            Op::Noop => true,
            Op::Mov { dst, src } => self.reg_ok(dst) && self.reg_ok(src),
            Op::MovImm { dst, .. } => self.reg_ok(dst),
            Op::MovKind { dst, .. } => self.reg_ok(dst),
            Op::AddImm { dst, .. } => self.reg_ok(dst),
            Op::If { condition, then } => self.condition_ok(condition) && id_ok(
                then,
                self.graph.view().len(),
            ),
            Op::Call { name } => name.idx() < self.strings.view().len(),
            Op::Return => true,
            Op::Flush { kind } => self.reg_ok(kind),
            Op::AwaitInput => true,
        }
    }

    /// Whether `n` is a node that may stand in this program's graph.
    pub open spec fn node_ok(&self, n: Node) -> bool {
        &&& self.op_ok(n.instr)
        &&& (n.next matches Some(x) ==> id_ok(x, self.graph.view().len()))
    }

    /// The program's invariant: every node's edges and ids are valid, the
    /// physical registers are counted, and every function body is a node.
    pub open spec fn wf(&self) -> bool {
        &&& forall|i: int|
            0 <= i < self.graph.view().len() ==> self.node_ok(#[trigger] self.graph.view()[i])
        &&& REGISTER_COUNT <= self.register_count <= u32::MAX + 1
        &&& forall|i: int|
            0 <= i < self.functions@.len() ==> id_ok(
                #[trigger] self.functions@[i].body,
                self.graph.view().len(),
            )
    }

    /// An empty program, which knows the highlight kind "other" with value 0.
    pub fn new() -> (r: Self)
        ensures
            r.wf(),
            r.graph.view().len() == 0,
            r.register_count == REGISTER_COUNT,
            r.functions@.len() == 0,
            r.charsets.view().len() == 0,
            r.strings.view().len() == 0,
            r.highlight_kinds@.len() == 1,
            r.highlight_kinds@[0].identifier@ == "other"@,
            r.highlight_kinds@[0].value == 0,
    {
        let identifier = String::from_str("other");
        Self {
            graph: Graph::new(),
            register_count: REGISTER_COUNT,
            functions: Vec::new(),
            charsets: IndexVec::new(),
            strings: IndexVec::new(),
            highlight_kinds: vec![HighlightKind { identifier, value: 0 }],
        }
    }

    /// Adds `ir` to the graph and returns its id.
    pub fn alloc_ir(&mut self, ir: Node) -> (r: NodeId)
        requires
            old(self).graph.view().len() <= u32::MAX,
        ensures
            final(self).graph.view() == old(self).graph.view().push(ir),
            r.idx() == old(self).graph.view().len(),
            final(self).register_count == old(self).register_count,
            final(self).functions == old(self).functions,
            final(self).charsets == old(self).charsets,
            final(self).strings == old(self).strings,
            final(self).highlight_kinds == old(self).highlight_kinds,
    {
        self.graph.push(ir)
    }

    /// Adds a node holding `instr` and no successor.
    pub fn alloc_iri(&mut self, instr: Op) -> (r: NodeId)
        requires
            old(self).graph.view().len() <= u32::MAX,
        ensures
            final(self).graph.view() == old(self).graph.view().push(Node { next: None, instr }),
            r.idx() == old(self).graph.view().len(),
            final(self).register_count == old(self).register_count,
            final(self).functions == old(self).functions,
            final(self).charsets == old(self).charsets,
            final(self).strings == old(self).strings,
            final(self).highlight_kinds == old(self).highlight_kinds,
    {
        self.alloc_ir(Node { next: None, instr })
    }

    /// Adds a no-op node with no successor.
    pub fn alloc_noop(&mut self) -> (r: NodeId)
        requires
            old(self).graph.view().len() <= u32::MAX,
        ensures
            final(self).graph.view() == old(self).graph.view().push(Node { next: None, instr: Op::Noop }),
            r.idx() == old(self).graph.view().len(),
            final(self).register_count == old(self).register_count,
            final(self).functions == old(self).functions,
            final(self).charsets == old(self).charsets,
            final(self).strings == old(self).strings,
            final(self).highlight_kinds == old(self).highlight_kinds,
    {
        self.alloc_iri(Op::Noop)
    }

    /// The id of the physical register `reg`.
    pub fn get_reg(&self, reg: Register) -> (r: RegId)
        ensures
            r.idx() == reg.number(),
    {
        RegId::from_usize(reg.index() as usize)
    }

    /// A fresh virtual register.
    pub fn alloc_vreg(&mut self) -> (r: RegId)
        requires
            old(self).register_count <= u32::MAX,
            old(self).register_count < usize::MAX,
        ensures
            r.idx() == old(self).register_count,
            final(self).register_count == old(self).register_count + 1,
            final(self).graph == old(self).graph,
            final(self).functions == old(self).functions,
            final(self).charsets == old(self).charsets,
            final(self).strings == old(self).strings,
            final(self).highlight_kinds == old(self).highlight_kinds,
    {
        let reg = RegId::from_usize(self.register_count);
        self.register_count = self.register_count + 1;
        reg
    }

    /// The id of a charset equal to `charset`, adding it if there is none yet.
    pub fn intern_charset(&mut self, charset: &Charset) -> (r: CharsetId)
        requires
            old(self).charsets.view().len() <= u32::MAX,
        ensures
            r.idx() < final(self).charsets.view().len(),
            final(self).charsets.view()[r.idx() as int]@ == charset@,
            forall|i: int|
                0 <= i < r.idx() ==> (#[trigger] old(self).charsets.view()[i])@ != charset@,
            if r.idx() < old(self).charsets.view().len() {
                final(self).charsets == old(self).charsets
            } else {
                final(self).charsets.view() == old(self).charsets.view().push(*charset)
            },
            final(self).graph == old(self).graph,
            final(self).register_count == old(self).register_count,
            final(self).functions == old(self).functions,
            final(self).strings == old(self).strings,
            final(self).highlight_kinds == old(self).highlight_kinds,
    {
        let n = self.charsets.len();
        let mut i: usize = 0;
        while i < n
            invariant
                n == self.charsets.view().len(),
                n <= u32::MAX,
                i <= n,
                forall|j: int| 0 <= j < i ==> (#[trigger] self.charsets.view()[j])@ != charset@,
            decreases n - i,
        {
            let id = CharsetId::from_usize(i);
            if *self.charsets.get(id) == *charset {
                return id;
            }
            i += 1;
        }
        self.charsets.push(*charset)
    }

    /// The highlight kind named `identifier`, added with the next free value if it is new.
    /// The kinds stay sorted by identifier.
    pub fn intern_highlight_kind(&mut self, identifier: &str) -> (r: &HighlightKind)
        requires
            kinds_sorted(old(self).highlight_kinds@),
        ensures
            kinds_sorted(final(self).highlight_kinds@),
            r.identifier@ == identifier@,
            (exists|i: int|
                0 <= i < old(self).highlight_kinds@.len()
                    && (#[trigger] old(self).highlight_kinds@[i]).identifier@ == identifier@) ==> {
                &&& final(self).highlight_kinds@ == old(self).highlight_kinds@
                &&& exists|i: int|
                    0 <= i < old(self).highlight_kinds@.len() && *r
                        == #[trigger] old(self).highlight_kinds@[i]
            },
            !(exists|i: int|
                0 <= i < old(self).highlight_kinds@.len()
                    && (#[trigger] old(self).highlight_kinds@[i]).identifier@ == identifier@) ==> {
                &&& r.value == old(self).highlight_kinds@.len() as u32
                &&& exists|p: int|
                    0 <= p <= old(self).highlight_kinds@.len() && final(self).highlight_kinds@
                        == old(self).highlight_kinds@.insert(p, *r)
            },
            final(self).graph == old(self).graph,
            final(self).register_count == old(self).register_count,
            final(self).functions == old(self).functions,
            final(self).charsets == old(self).charsets,
            final(self).strings == old(self).strings,
    {
        let ghost ks = self.highlight_kinds@;
        let ghost id = utf8_of(identifier@);
        let key = identifier.as_bytes();
        let n = self.highlight_kinds.len();
        let mut lo: usize = 0;
        let mut hi: usize = n;
        while lo < hi
            invariant
                ks == self.highlight_kinds@,
                kinds_sorted(ks),
                n == ks.len(),
                key@ == id,
                0 <= lo <= hi <= n,
                forall|j: int| 0 <= j < lo ==> bytes_lt(utf8_of((#[trigger] ks[j]).identifier@), id),
                forall|j: int| hi <= j < n ==> !bytes_lt(utf8_of((#[trigger] ks[j]).identifier@), id),
            decreases hi - lo,
        {
            let mid = lo + (hi - lo) / 2;
            let c = compare_bytes(self.highlight_kinds[mid].identifier.as_str().as_bytes(), key);
            let ghost m = utf8_of(ks[mid as int].identifier@);
            if c == LexOrder::Before {
                assert forall|j: int| 0 <= j < mid + 1 implies bytes_lt(
                    utf8_of((#[trigger] ks[j]).identifier@),
                    id,
                ) by {
                    if j < mid {
                        lemma_bytes_lt_order(utf8_of(ks[j].identifier@), m, id);
                    }
                }
                lo = mid + 1;
            } else {
                assert forall|j: int| mid <= j < n implies !bytes_lt(
                    utf8_of((#[trigger] ks[j]).identifier@),
                    id,
                ) by {
                    lemma_bytes_lt_order(m, id, id);
                    if j > mid {
                        let x = utf8_of(ks[j].identifier@);
                        lemma_bytes_lt_order(x, id, m);
                        lemma_bytes_lt_order(id, m, x);
                        lemma_bytes_lt_order(m, x, id);
                        lemma_bytes_lt_order(x, m, id);
                    }
                }
                hi = mid;
            }
        }
        let found = lo < n && compare_bytes(
            self.highlight_kinds[lo].identifier.as_str().as_bytes(),
            key,
        ) == LexOrder::Same;
        if found {
            proof {
                lemma_utf8_injective(ks[lo as int].identifier@, identifier@);
            }
            &self.highlight_kinds[lo]
        } else {
            proof {
                assert forall|i: int| 0 <= i < n implies (#[trigger] ks[i]).identifier@ != identifier@ by {
                    lemma_utf8_injective(ks[i].identifier@, identifier@);
                    lemma_bytes_lt_order(utf8_of(ks[i].identifier@), id, id);
                    if i >= lo && i != lo {
                        let a = utf8_of(ks[lo as int].identifier@);
                        let b = utf8_of(ks[i].identifier@);
                        lemma_bytes_lt_order(id, a, b);
                        lemma_bytes_lt_order(a, b, id);
                        lemma_bytes_lt_order(id, b, a);
                    }
                }
            }
            let value = n as u32;
            let hk = HighlightKind { identifier: String::from_str(identifier), value };
            self.highlight_kinds.insert(lo, hk);
            proof {
                let ks2 = self.highlight_kinds@;
                assert forall|i: int, j: int| 0 <= i < j < ks2.len() implies bytes_lt(
                    utf8_of((#[trigger] ks2[i]).identifier@),
                    utf8_of((#[trigger] ks2[j]).identifier@),
                ) by {
                    if i == lo && j > lo {
                        lemma_bytes_lt_order(id, utf8_of(ks[lo as int].identifier@), utf8_of(ks[j - 1].identifier@));
                        lemma_bytes_lt_order(utf8_of(ks[lo as int].identifier@), id, id);
                        lemma_bytes_lt_order(id, utf8_of(ks[lo as int].identifier@), id);
                    }
                    if j == lo && i < lo {
                    }
                }
            }
            &self.highlight_kinds[lo]
        }
    }

    /// The id of a string equal to `value`, adding it if there is none yet.
    pub fn intern_string(&mut self, value: &str) -> (r: StringId)
        requires
            old(self).strings.view().len() <= u32::MAX,
        ensures
            r.idx() < final(self).strings.view().len(),
            final(self).strings.view()[r.idx() as int]@ == value@,
            forall|i: int|
                0 <= i < r.idx() ==> (#[trigger] old(self).strings.view()[i])@ != value@,
            if r.idx() < old(self).strings.view().len() {
                final(self).strings == old(self).strings
            } else {
                final(self).strings.view().len() == old(self).strings.view().len() + 1
                    && final(self).strings.view().drop_last() == old(self).strings.view()
            },
            final(self).graph == old(self).graph,
            final(self).register_count == old(self).register_count,
            final(self).functions == old(self).functions,
            final(self).charsets == old(self).charsets,
            final(self).highlight_kinds == old(self).highlight_kinds,
    {
        let n = self.strings.len();
        let mut i: usize = 0;
        while i < n
            invariant
                n == self.strings.view().len(),
                n <= u32::MAX,
                i <= n,
                forall|j: int| 0 <= j < i ==> (#[trigger] self.strings.view()[j])@ != value@,
            decreases n - i,
        {
            let id = StringId::from_usize(i);
            if str_eq(self.strings.get(id).as_str(), value) {
                return id;
            }
            i += 1;
        }
        let ghost old_strings = self.strings.view();
        let r = self.strings.push(String::from_str(value));
        assert(self.strings.view().drop_last() =~= old_strings);
        r
    }
}

impl Node {
    /// Whether control falls through from this node to a successor that is not set yet.
    pub open spec fn wants_next_spec(self) -> bool {
        &&& self.next is None
        &&& !(self.instr matches Op::Mov { dst, .. } && dst.idx() == Register::ProgramCounter.number())
        &&& !(self.instr matches Op::MovImm { dst, .. } && dst.idx() == Register::ProgramCounter.number())
        &&& !(self.instr is Return)
    }

    /// Whether control falls through from this node to a successor that is not set yet:
    /// it has none, and it is neither a return nor a jump through the program counter.
    pub fn wants_next(&self) -> (r: bool)
        ensures
            r == self.wants_next_spec(),
    {
        if self.next.is_some() {
            return false;
        }
        match self.instr {
            Op::Mov { dst, .. } => dst.to_usize() != Register::ProgramCounter.index() as usize,
            Op::MovImm { dst, .. } => dst.to_usize() != Register::ProgramCounter.index() as usize,
            Op::Return => false,
            _ => true,
        }
    }

    /// Sets the successor of a node. Meant for nodes that want one (see
    /// [`Self::wants_next`]); any earlier successor is replaced.
    pub fn set_next(&mut self, n: NodeId)
        ensures
            *final(self) == (Node { next: Some(n), ..*old(self) }),
    {
        self.next = Some(n);
    }
}

impl Fragment {
    /// The fragment made of the one node `node`.
    pub fn single(node: NodeId) -> (r: Self)
        ensures
            r.first == node,
            r.last == node,
    {
        Self { first: node, last: node }
    }
}

/// Builds a straight chain of nodes, each the successor of the one before.
pub struct ChainBuilder<'s> {
    pub program: &'s mut Program,
    pub span: Option<Fragment>,
}

impl Program {
    /// A builder that appends a chain of new nodes to this program.
    pub fn build_chain<'s>(&'s mut self) -> (r: ChainBuilder<'s>)
        ensures
            *r.program == *old(self),
            r.span is None,
            *final(self) == *final(r.program),
    {
        ChainBuilder { program: self, span: None }
    }
}

impl<'s> ChainBuilder<'s> {
    /// The chain once `node` is appended to `span`.
    pub open spec fn extended(span: Option<Fragment>, node: NodeId) -> Fragment {
        match span {
            Some(sp) => Fragment { first: sp.first, last: node },
            None => Fragment { first: node, last: node },
        }
    }

    /// The graph once a node holding `instr` is appended to `span`.
    pub open spec fn appended(g: Seq<Node>, span: Option<Fragment>, instr: Op) -> Seq<Node> {
        let id = NodeId(g.len() as u32);
        let g1 = match span {
            Some(sp) => g.update(sp.last.idx() as int, Node { next: Some(id), ..g[sp.last.idx() as int] }),
            None => g,
        };
        g1.push(Node { next: None, instr })
    }

    /// Appends a node holding `instr` at the end of the chain.
    pub fn append(&mut self, instr: Op) -> (r: &mut Self)
        requires
            old(self).program.graph.view().len() < u32::MAX,
            old(self).span matches Some(sp) ==> id_ok(sp.last, old(self).program.graph.view().len()),
        ensures
            r.program.graph.view() == Self::appended(old(self).program.graph.view(), old(self).span, instr),
            r.span == Some(Self::extended(old(self).span, NodeId(old(self).program.graph.view().len() as u32))),
            r.program.register_count == old(self).program.register_count,
            r.program.functions == old(self).program.functions,
            r.program.charsets == old(self).program.charsets,
            r.program.strings == old(self).program.strings,
            r.program.highlight_kinds == old(self).program.highlight_kinds,
            *final(r.program) == *final(old(self).program),
            *final(self) == *final(r),
    {
        let node = self.program.alloc_iri(instr);
        match self.span {
            Some(span) => {
                self.program.graph.node_mut(span.last).set_next(node);
                self.span = Some(Fragment { first: span.first, last: node });
            },
            None => {
                self.span = Some(Fragment::single(node));
            },
        }
        self
    }

    /// The chain built so far, or a single no-op node if it is empty.
    pub fn build(&mut self) -> (r: Fragment)
        requires
            old(self).program.graph.view().len() <= u32::MAX,
        ensures
            *final(final(self).program) == *final(old(self).program),
            match old(self).span {
                Some(sp) => r == sp && *final(self) == *old(self),
                None => {
                    &&& final(self).program.graph.view() == old(self).program.graph.view().push(
                        Node { next: None, instr: Op::Noop },
                    )
                    &&& r.first.idx() == old(self).program.graph.view().len()
                    &&& r.last == r.first
                    &&& final(self).span == old(self).span
                    &&& final(self).program.register_count == old(self).program.register_count
                    &&& final(self).program.functions == old(self).program.functions
                    &&& final(self).program.charsets == old(self).program.charsets
                    &&& final(self).program.strings == old(self).program.strings
                    &&& final(self).program.highlight_kinds == old(self).program.highlight_kinds
                },
            },
    {
        match self.span {
            Some(span) => span,
            None => Fragment::single(self.program.alloc_noop()),
        }
    }
}

/// The successors that a walk pushes after visiting `n`: the `then` target when it
/// follows those, then the `next` node.
pub open spec fn successors(n: Node, follow_then: bool) -> Seq<NodeId> {
    let a = match n.instr {
        Op::If { then, .. } => if follow_then {
            seq![then]
        } else {
            Seq::empty()
        },
        _ => Seq::empty(),
    };
    match n.next {
        Some(x) => a.push(x),
        None => a,
    }
}

/// The position of the first node in `q` that is not marked in `visited`, or `q.len()`.
pub open spec fn first_fresh(q: Seq<NodeId>, visited: Seq<bool>) -> int
    decreases q.len(),
{
    if q.len() == 0 {
        0
    } else if !visited[q[0].idx() as int] {
        0
    } else {
        1 + first_fresh(q.drop_first(), visited)
    }
}

proof fn lemma_first_fresh_bounds(q: Seq<NodeId>, visited: Seq<bool>)
    ensures
        0 <= first_fresh(q, visited) <= q.len(),
    decreases q.len(),
{
    if q.len() > 0 {
        lemma_first_fresh_bounds(q.drop_first(), visited);
    }
}

/// The number of unmarked entries of `v`.
pub open spec fn fresh_count(v: Seq<bool>) -> nat
    decreases v.len(),
{
    if v.len() == 0 {
        0
    } else {
        fresh_count(v.drop_last()) + if v.last() {
            0nat
        } else {
            1nat
        }
    }
}

proof fn lemma_fresh_count_mark(v: Seq<bool>, i: int)
    requires
        0 <= i < v.len(),
        !v[i],
    ensures
        fresh_count(v.update(i, true)) + 1 == fresh_count(v),
    decreases v.len(),
{
    let w = v.update(i, true);
    if i == v.len() - 1 {
        assert(w.drop_last() =~= v.drop_last());
    } else {
        assert(w.drop_last() =~= v.drop_last().update(i, true));
        lemma_fresh_count_mark(v.drop_last(), i);
    }
}

proof fn lemma_first_fresh_skip(q: Seq<NodeId>, visited: Seq<bool>, i: int)
    requires
        0 <= i <= q.len(),
        forall|j: int| 0 <= j < i ==> visited[(#[trigger] q[j]).idx() as int],
    ensures
        first_fresh(q, visited) == i + first_fresh(q.subrange(i, q.len() as int), visited),
    decreases i,
{
    if i > 0 {
        assert(q.drop_first().subrange(i - 1, q.drop_first().len() as int) =~= q.subrange(i, q.len() as int));
        assert forall|j: int| 0 <= j < i - 1 implies visited[(#[trigger] q.drop_first()[j]).idx() as int] by {
            assert(q.drop_first()[j] == q[j + 1]);
        }
        lemma_first_fresh_skip(q.drop_first(), visited, i - 1);
    } else {
        assert(q.subrange(0, q.len() as int) =~= q);
    }
}

/// A breadth-first walk over the graph that visits each node once.
pub struct GraphWalker {
    current: Option<NodeId>,
    stack: VecDeque<NodeId>,
    visited: Vec<bool>,
    follow_then: bool,
}

impl GraphWalker {
    /// The node visited last, whose successors are not queued yet.
    pub closed spec fn current(&self) -> Option<NodeId> {
        self.current
    }

    /// The nodes waiting to be visited, in order.
    pub closed spec fn queue(&self) -> Seq<NodeId> {
        self.stack@
    }

    /// Which nodes have been visited, by id.
    pub closed spec fn visited(&self) -> Seq<bool> {
        self.visited@
    }

    /// Whether the walk follows `then` edges too.
    pub closed spec fn follows_then(&self) -> bool {
        self.follow_then
    }

    /// Whether the walker fits a graph of `len` nodes.
    pub open spec fn ok_for(&self, len: nat) -> bool {
        &&& self.visited().len() == len
        &&& (self.current() matches Some(c) ==> id_ok(c, len) && self.visited()[c.idx() as int])
        &&& forall|i: int| 0 <= i < self.queue().len() ==> id_ok(#[trigger] self.queue()[i], len)
    }

    /// The nodes that the next step considers, in order.
    pub open spec fn pending(&self, g: Seq<Node>) -> Seq<NodeId> {
        walk_pending(g, self.current(), self.queue(), self.follows_then())
    }

    /// Visits the next node that has not been visited yet, or returns `None` when
    /// there is none left.
    pub fn next(&mut self, graph: &Graph) -> (r: Option<NodeId>)
        requires
            graph.wf(),
            old(self).ok_for(graph.view().len()),
        ensures
            final(self).ok_for(graph.view().len()),
            final(self).follows_then() == old(self).follows_then(),
            0 <= first_fresh(old(self).pending(graph.view()), old(self).visited()),
            ({
                let q = old(self).pending(graph.view());
                let k = first_fresh(q, old(self).visited());
                if k < q.len() {
                    &&& r == Some(q[k])
                    &&& final(self).current() == r
                    &&& final(self).queue() == q.subrange(k + 1, q.len() as int)
                    &&& final(self).visited() == old(self).visited().update(q[k].idx() as int, true)
                    &&& !old(self).visited()[q[k].idx() as int]
                    &&& fresh_count(final(self).visited()) + 1 == fresh_count(old(self).visited())
                } else {
                    &&& r is None
                    &&& final(self).current() is None
                    &&& final(self).queue().len() == 0
                    &&& final(self).visited() == old(self).visited()
                }
            }),
    {
        let ghost q = self.pending(graph.view());
        let ghost v0 = self.visited@;
        proof {
            lemma_first_fresh_bounds(q, v0);
        }
        if let Some(cell) = self.current.take() {
            let ir = graph.node(cell);
            if let Op::If { then, .. } = ir.instr {
                if self.follow_then {
                    self.stack.push_back(then);
                }
            }
            if let Some(next) = ir.next {
                self.stack.push_back(next);
            }
        }
        assert(self.stack@ =~= q);
        let ghost mut i: int = 0;
        loop
            invariant
                self.visited@ == v0,
                v0 == old(self).visited(),
                q == old(self).pending(graph.view()),
                graph.wf(),
                v0.len() == graph.view().len(),
                0 <= i <= q.len(),
                self.stack@ == q.subrange(i, q.len() as int),
                forall|j: int| 0 <= j < q.len() ==> id_ok(#[trigger] q[j], graph.view().len()),
                forall|j: int| 0 <= j < i ==> v0[(#[trigger] q[j]).idx() as int],
                self.current is None,
                self.follow_then == old(self).follow_then,
            decreases q.len() - i,
        {
            match self.stack.pop_front() {
                Some(cell) => {
                    let c = cell.to_usize();
                    if !self.visited[c] {
                        proof {
                            lemma_first_fresh_skip(q, v0, i);
                            lemma_fresh_count_mark(v0, c as int);
                        }
                        self.visited.set(c, true);
                        self.current = Some(cell);
                        assert(self.stack@ =~= q.subrange(i + 1, q.len() as int));
                        return Some(cell);
                    }
                    proof {
                        i = i + 1;
                    }
                    assert(self.stack@ =~= q.subrange(i, q.len() as int));
                },
                None => {
                    proof {
                        lemma_first_fresh_skip(q, v0, i);
                    }
                    return None;
                },
            }
        }
    }
}

impl Program {
    /// A walk over the nodes reachable from `root`, along both `next` and `then` edges.
    pub fn visit_nodes_from(&self, root: NodeId) -> (r: GraphWalker)
        requires
            id_ok(root, self.graph.view().len()),
        ensures
            r.ok_for(self.graph.view().len()),
            r.current() is None,
            r.queue() == seq![root],
            r.visited() == Seq::new(self.graph.view().len(), |i: int| false),
            r.follows_then(),
    {
        let mut stack = VecDeque::new();
        stack.push_back(root);
        let visited = vec![false; self.graph.len()];
        assert(visited@ =~= Seq::new(self.graph.view().len(), |i: int| false));
        GraphWalker { current: None, stack, visited, follow_then: true }
    }

    /// Same as [`Self::visit_nodes_from`], but doesn't traverse `then` edges.
    /// A `then` target is still visited if some node's `next` edge points at it too.
    fn visit_fallthrough_nodes_from(&self, root: NodeId) -> (r: GraphWalker)
        requires
            id_ok(root, self.graph.view().len()),
        ensures
            r.ok_for(self.graph.view().len()),
            r.current() is None,
            r.queue() == seq![root],
            r.visited() == Seq::new(self.graph.view().len(), |i: int| false),
            !r.follows_then(),
    {
        let mut visitor = self.visit_nodes_from(root);
        visitor.follow_then = false;
        visitor
    }
}

/// The node after `o` along its `next` edge.
pub open spec fn chain_step(g: Seq<Node>, o: Option<NodeId>) -> Option<NodeId> {
    match o {
        Some(n) => if n.idx() < g.len() {
            g[n.idx() as int].next
        } else {
            None
        },
        None => None,
    }
}

/// The node reached from `root` after following `k` `next` edges, if the chain is that long.
pub open spec fn chain_at(g: Seq<Node>, root: NodeId, k: nat) -> Option<NodeId>
    decreases k,
{
    if k == 0 {
        Some(root)
    } else {
        chain_step(g, chain_at(g, root, (k - 1) as nat))
    }
}

/// Once the chain ends or comes back to a node it passed, every node on it is among
/// its first `i`.
pub proof fn lemma_chain_closed(g: Seq<Node>, root: NodeId, i: nat, m: nat)
    requires
        i > 0,
        chain_at(g, root, i) is None || exists|j: nat| j < i && chain_at(g, root, i) == #[trigger] chain_at(g, root, j),
        chain_at(g, root, m) is Some,
    ensures
        exists|l: nat| l < i && chain_at(g, root, m) == #[trigger] chain_at(g, root, l),
    decreases m,
{
    if m < i {
        assert(chain_at(g, root, m) == chain_at(g, root, m));
    } else if m == i {
        let j = choose|j: nat| j < i && chain_at(g, root, i) == #[trigger] chain_at(g, root, j);
        assert(chain_at(g, root, m) == chain_at(g, root, j));
    } else {
        assert(chain_at(g, root, (m - 1) as nat) is Some);
        lemma_chain_closed(g, root, i, (m - 1) as nat);
        let l = choose|l: nat| l < i && chain_at(g, root, (m - 1) as nat) == #[trigger] chain_at(g, root, l);
        assert(chain_at(g, root, m) == chain_at(g, root, l + 1));
        if l + 1 < i {
            assert(chain_at(g, root, m) == chain_at(g, root, (l + 1) as nat));
        } else {
            let j = choose|j: nat| j < i && chain_at(g, root, i) == #[trigger] chain_at(g, root, j);
            assert(chain_at(g, root, m) == chain_at(g, root, j));
        }
    }
}

impl Program {
    /// Whether the condition of node `n` can start with byte `b`: a charset condition
    /// through its bytes, a prefix condition through its first byte (in either ASCII
    /// case when it is case-insensitive).
    pub open spec fn interesting(&self, n: Node, b: u8) -> bool {
        match n.instr {
            Op::If { condition, .. } => match condition {
                Condition::Charset { cs, .. } => self.charsets.view()[cs.idx() as int]@.contains(b),
                Condition::Prefix(s) => {
                    let t = utf8_of(self.strings.view()[s.idx() as int]@);
                    t.len() > 0 && b == t[0]
                },
                Condition::PrefixInsensitive(s) => {
                    let t = utf8_of(self.strings.view()[s.idx() as int]@);
                    t.len() > 0 && (b == t[0] || b == ascii_upper(t[0]) || b == ascii_lower(t[0]))
                },
                _ => false,
            },
            _ => false,
        }
    }

    /// Whether the node `k` steps along the `next` chain from `root` makes `b` interesting.
    pub open spec fn interesting_at(&self, root: NodeId, k: nat, b: u8) -> bool {
        &&& chain_at(self.graph.view(), root, k) is Some
        &&& self.interesting(self.graph.view()[chain_at(self.graph.view(), root, k)->0.idx() as int], b)
    }

    /// Collect all "interesting" characters from conditions in a loop body.
    /// Returns a charset where true = interesting character that should be checked.
    ///
    /// Only the conditions on the `next` chain from `loop_body` count: those reachable
    /// without consuming input, not the bodies of `if`s.
    pub fn collect_interesting_charset(&self, loop_body: NodeId) -> (r: Charset)
        requires
            self.wf(),
            id_ok(loop_body, self.graph.view().len()),
        ensures
            forall|b: u8| r@.contains(b) <==> exists|k: nat| #[trigger] self.interesting_at(loop_body, k, b),
    {
        let ghost g = self.graph.view();
        let ghost len = g.len();
        let mut charset = Charset::no();
        let mut visitor = self.visit_fallthrough_nodes_from(loop_body);
        let ghost mut i: nat = 0;
        loop
            invariant_except_break
                visitor.ok_for(len),
                !visitor.follows_then(),
                i == 0 ==> visitor.current() is None && visitor.queue() == seq![loop_body]
                    && visitor.visited() == Seq::new(len, |x: int| false),
                i > 0 ==> visitor.current() == chain_at(g, loop_body, (i - 1) as nat)
                    && visitor.queue().len() == 0,
                forall|j: nat| j < i ==> (#[trigger] chain_at(g, loop_body, j)) is Some,
                forall|x: int| 0 <= x < len ==> (visitor.visited()[x] <==> exists|j: nat|
                    j < i && (#[trigger] chain_at(g, loop_body, j)) is Some && chain_at(g, loop_body, j)->0.idx() == x),
                forall|b: u8| charset@.contains(b) <==> exists|j: nat| j < i && #[trigger] self.interesting_at(loop_body, j, b),
            invariant
                self.wf(),
                g == self.graph.view(),
                len == g.len(),
                id_ok(loop_body, len),
            ensures
                forall|b: u8| charset@.contains(b) <==> exists|k: nat| #[trigger] self.interesting_at(loop_body, k, b),
            decreases fresh_count(visitor.visited()),
        {
            let ghost before = visitor;
            let node = match visitor.next(&self.graph) {
                Some(n) => n,
                None => {
                    proof {
                        if i == 0 {
                            assert(first_fresh(seq![loop_body], before.visited()) == 0);
                        } else {
                            let c = chain_at(g, loop_body, (i - 1) as nat)->0;
                            let q = before.pending(g);
                            assert(q =~= successors(g[c.idx() as int], false));
                            match g[c.idx() as int].next {
                                Some(x) => {
                                    assert(q[0] == x);
                                    assert(before.visited()[x.idx() as int]);
                                    assert(chain_at(g, loop_body, i) == Some(x));
                                },
                                None => {
                                    assert(chain_at(g, loop_body, i) is None);
                                },
                            }
                        }
                        assert forall|b: u8| charset@.contains(b) <==> exists|k: nat| #[trigger] self.interesting_at(loop_body, k, b) by {
                            if exists|k: nat| #[trigger] self.interesting_at(loop_body, k, b) {
                            let k = choose|k: nat| #[trigger] self.interesting_at(loop_body, k, b);
                            lemma_chain_closed(g, loop_body, i, k);
                            let l = choose|l: nat| l < i && chain_at(g, loop_body, k) == #[trigger] chain_at(g, loop_body, l);
                            assert(self.interesting_at(loop_body, l, b));
                            }
                            if charset@.contains(b) {
                                let j = choose|j: nat| j < i && #[trigger] self.interesting_at(loop_body, j, b);
                                assert(self.interesting_at(loop_body, j, b));
                            }
                        }
                    }
                    break;
                },
            };
            proof {
                if i == 0 {
                    assert(first_fresh(seq![loop_body], before.visited()) == 0);
                    assert(node == loop_body);
                } else {
                    let c = chain_at(g, loop_body, (i - 1) as nat)->0;
                    let q = before.pending(g);
                    assert(q =~= successors(g[c.idx() as int], false));
                    assert(chain_at(g, loop_body, i) == chain_step(g, chain_at(g, loop_body, (i - 1) as nat)));
                    assert(chain_at(g, loop_body, i) == g[c.idx() as int].next);
                    match g[c.idx() as int].next {
                        Some(x) => {
                            assert(q =~= seq![x]);
                            let k = first_fresh(q, before.visited());
                            assert(k < q.len());
                            assert(Some(node) == Some(q[k]));
                            assert(node == x);
                        },
                        None => {
                            assert(q.len() == 0);
                        },
                    }
                }
                assert(chain_at(g, loop_body, i) == Some(node));
            }
            let ghost old_set = charset@;
            let n = self.graph.node(node);
            if let Op::If { condition, .. } = n.instr {
                match condition {
                    Condition::Charset { cs, .. } => {
                        charset.merge(self.charsets.get(cs));
                    },
                    Condition::Prefix(s) => {
                        let t = self.strings.get(s).as_str().as_bytes();
                        if t.len() > 0 {
                            charset.set(t[0], true);
                        }
                    },
                    Condition::PrefixInsensitive(s) => {
                        let t = self.strings.get(s).as_str().as_bytes();
                        if t.len() > 0 {
                            let b = t[0];
                            charset.set(b, true);
                            charset.set(to_ascii_uppercase(b), true);
                            charset.set(to_ascii_lowercase(b), true);
                        }
                    },
                    _ => {},
                }
            }
            proof {
                assert forall|b: u8| charset@.contains(b) <==> exists|j: nat| j < i + 1 && #[trigger] self.interesting_at(loop_body, j, b) by {
                    if charset@.contains(b) && !old_set.contains(b) {
                        assert(self.interesting_at(loop_body, i, b));
                    }
                    if exists|j: nat| j < i + 1 && #[trigger] self.interesting_at(loop_body, j, b) {
                        let j = choose|j: nat| j < i + 1 && #[trigger] self.interesting_at(loop_body, j, b);
                        if j == i {
                            assert(charset@.contains(b));
                        }
                    }
                }
                assert forall|x: int| 0 <= x < len implies (visitor.visited()[x] <==> exists|j: nat|
                    j < i + 1 && (#[trigger] chain_at(g, loop_body, j)) is Some && chain_at(g, loop_body, j)->0.idx() == x) by {
                    if x == node.idx() {
                        assert(chain_at(g, loop_body, i) is Some);
                    }
                    if exists|j: nat| j < i + 1 && (#[trigger] chain_at(g, loop_body, j)) is Some && chain_at(g, loop_body, j)->0.idx() == x {
                        let j = choose|j: nat| j < i + 1 && (#[trigger] chain_at(g, loop_body, j)) is Some && chain_at(g, loop_body, j)->0.idx() == x;
                        if j < i {
                            assert(before.visited()[x]);
                        }
                    }
                }
                i = i + 1;
            }
        }
        charset
    }
}

/// `s` in CamelCase: each `.` dropped and the character after it, and the first one,
/// in ASCII uppercase. `cap` says whether the first character is capitalized.
pub open spec fn camel_case(s: Seq<char>, cap: bool) -> Seq<char>
    decreases s.len(),
{
    if s.len() == 0 {
        Seq::empty()
    } else if s[0] == '.' {
        camel_case(s.drop_first(), true)
    } else if cap {
        seq![char_upper(s[0])] + camel_case(s.drop_first(), false)
    } else {
        seq![s[0]] + camel_case(s.drop_first(), false)
    }
}

impl HighlightKind {
    /// The identifier in CamelCase, for generated code.
    pub fn fmt_camelcase(&self) -> (r: HighlightKindCamelcaseFormatter<'_>)
        ensures
            r.identifier@ == self.identifier@,
    {
        HighlightKindCamelcaseFormatter { identifier: self.identifier.as_str() }
    }
}

/// An identifier to be written in CamelCase.
pub struct HighlightKindCamelcaseFormatter<'a> {
    pub identifier: &'a str,
}

impl<'a> HighlightKindCamelcaseFormatter<'a> {
    /// The identifier in CamelCase: `comment.doc` becomes `CommentDoc`.
    pub fn to_string(&self) -> (r: String)
        ensures
            r@ == camel_case(self.identifier@, true),
    {
        let chars = chars_of(self.identifier);
        let ghost s = self.identifier@;
        let mut out = String::new();
        let mut capitalize_next = true;
        let mut i: usize = 0;
        assert(s.skip(0) =~= s);
        assert(out@ + camel_case(s, true) =~= camel_case(s, true));
        while i < chars.len()
            invariant
                chars@ == s,
                i <= s.len(),
                out@ + camel_case(s.skip(i as int), capitalize_next) == camel_case(s, true),
            decreases s.len() - i,
        {
            let c = chars[i];
            let ghost rest = s.skip(i as int);
            assert(rest.drop_first() =~= s.skip(i + 1));
            if c == '.' {
                capitalize_next = true;
            } else if capitalize_next {
                capitalize_next = false;
                push_char(&mut out, char_to_ascii_uppercase(c));
                assert(out@ + camel_case(s.skip(i + 1), capitalize_next) =~= camel_case(s, true));
            } else {
                push_char(&mut out, c);
                assert(out@ + camel_case(s.skip(i + 1), capitalize_next) =~= camel_case(s, true));
            }
            i += 1;
        }
        assert(s.skip(i as int) =~= Seq::<char>::empty());
        assert(out@ =~= camel_case(s, true));
        out
    }
}

/// Whether `new` extends `old`: every node, charset and string of `old` is still there
/// unchanged, registers are only added, and functions and highlight kinds are the same.
pub open spec fn grows(old: Program, new: Program) -> bool {
    &&& old.graph.view().len() <= new.graph.view().len()
    &&& forall|k: int| 0 <= k < old.graph.view().len() ==> new.graph.view()[k] == #[trigger] old.graph.view()[k]
    &&& old.charsets.view().len() <= new.charsets.view().len()
    &&& forall|k: int| 0 <= k < old.charsets.view().len() ==> new.charsets.view()[k] == #[trigger] old.charsets.view()[k]
    &&& old.strings.view().len() <= new.strings.view().len()
    &&& forall|k: int| 0 <= k < old.strings.view().len() ==> new.strings.view()[k]@ == (#[trigger] old.strings.view()[k])@
    &&& old.register_count <= new.register_count
    &&& new.functions == old.functions
    &&& new.highlight_kinds == old.highlight_kinds
}

/// `grows` is a preorder.
pub proof fn lemma_grows_trans(a: Program, b: Program, c: Program)
    requires
        grows(a, b),
        grows(b, c),
    ensures
        grows(a, c),
{
    assert forall|k: int| 0 <= k < a.graph.view().len() implies c.graph.view()[k] == #[trigger] a.graph.view()[k] by {
        assert(b.graph.view()[k] == a.graph.view()[k]);
    }
    assert forall|k: int| 0 <= k < a.charsets.view().len() implies c.charsets.view()[k] == #[trigger] a.charsets.view()[k] by {
        assert(b.charsets.view()[k] == a.charsets.view()[k]);
    }
    assert forall|k: int| 0 <= k < a.strings.view().len() implies c.strings.view()[k]@ == (#[trigger] a.strings.view()[k])@ by {
        assert(b.strings.view()[k]@ == a.strings.view()[k]@);
    }
}

/// The nodes pending at a walk's next step: the queue, then the successors of the node
/// visited last (see [`GraphWalker::pending`]).
pub open spec fn walk_pending(g: Seq<Node>, c: Option<NodeId>, q: Seq<NodeId>, ft: bool) -> Seq<NodeId> {
    match c {
        Some(c) => q + successors(g[c.idx() as int], ft),
        None => q,
    }
}

/// The nodes that a walk visits from the state (`c`, `q`, `v`), one per step of
/// [`GraphWalker::next`], until a step finds none left or `fuel` steps have been taken.
pub open spec fn walk_from(g: Seq<Node>, c: Option<NodeId>, q: Seq<NodeId>, v: Seq<bool>, ft: bool, fuel: nat) -> Seq<
    NodeId,
>
    decreases fuel,
{
    if fuel == 0 {
        Seq::empty()
    } else {
        let p = walk_pending(g, c, q, ft);
        let k = first_fresh(p, v);
        if 0 <= k < p.len() {
            seq![p[k]] + walk_from(
                g,
                Some(p[k]),
                p.subrange(k + 1, p.len() as int),
                v.update(p[k].idx() as int, true),
                ft,
                (fuel - 1) as nat,
            )
        } else {
            Seq::empty()
        }
    }
}

/// Whether a walk goes from `y` to `s` in one step.
pub open spec fn edge(g: Seq<Node>, y: NodeId, s: NodeId, ft: bool) -> bool {
    y.idx() < g.len() && successors(g[y.idx() as int], ft).contains(s)
}

/// Whether each node of `path` is followed by one that a walk steps to from it.
pub open spec fn is_path(g: Seq<Node>, path: Seq<NodeId>, ft: bool) -> bool {
    forall|i: int, j: int| 0 <= i && j == i + 1 && j < path.len() ==> edge(g, #[trigger] path[i], #[trigger] path[j], ft)
}

/// Whether `x` is reached from `root` along the edges that a walk follows.
pub open spec fn reachable(g: Seq<Node>, root: NodeId, x: NodeId, ft: bool) -> bool {
    exists|path: Seq<NodeId>| #![trigger is_path(g, path, ft)]
        path.len() > 0 && path[0] == root && path.last() == x && is_path(g, path, ft)
}

/// All of a walk's marks are fresh at the start.
pub proof fn lemma_fresh_count_all(n: nat)
    ensures
        fresh_count(Seq::new(n, |i: int| false)) == n,
    decreases n,
{
    if n > 0 {
        assert(Seq::new(n, |i: int| false).drop_last() =~= Seq::new((n - 1) as nat, |i: int| false));
        lemma_fresh_count_all((n - 1) as nat);
    }
}

/// What the walker `w` still yields on `g`: the nodes that calls of [`GraphWalker::next`]
/// return from this state on, one per call, before the first `None`.
pub open spec fn walk_of(g: Seq<Node>, w: GraphWalker) -> Seq<NodeId> {
    walk_from(g, w.current(), w.queue(), w.visited(), w.follows_then(), fresh_count(w.visited()) + 1)
}

/// Repeated calls of [`GraphWalker::next`] on one graph hand out the walk one node at a
/// time: a call that takes the walker from `w0` to `w1` and returns `Some(x)` takes `x` off
/// the front of what `w0` still yields, and one that returns `None` leaves nothing, so that
/// every later call returns `None` too. (The requirements are what `next` ensures.)
pub proof fn lemma_next_steps_walk(g: Seq<Node>, w0: GraphWalker, w1: GraphWalker, r: Option<NodeId>)
    requires
        w0.ok_for(g.len()),
        w1.ok_for(g.len()),
        w1.follows_then() == w0.follows_then(),
        ({
            let q = w0.pending(g);
            let k = first_fresh(q, w0.visited());
            if k < q.len() {
                &&& r == Some(q[k])
                &&& w1.current() == r
                &&& w1.queue() == q.subrange(k + 1, q.len() as int)
                &&& w1.visited() == w0.visited().update(q[k].idx() as int, true)
                &&& fresh_count(w1.visited()) + 1 == fresh_count(w0.visited())
            } else {
                &&& r is None
                &&& w1.current() is None
                &&& w1.queue().len() == 0
                &&& w1.visited() == w0.visited()
            }
        }),
    ensures
        walk_of(g, w0) == (match r {
            Some(x) => seq![x] + walk_of(g, w1),
            None => Seq::<NodeId>::empty(),
        }),
        r is None ==> walk_of(g, w1) == Seq::<NodeId>::empty(),
{
    let q = w0.pending(g);
    lemma_first_fresh_bounds(q, w0.visited());
    if r is None {
        let p1 = walk_pending(g, w1.current(), w1.queue(), w1.follows_then());
        assert(p1 =~= Seq::<NodeId>::empty());
        assert(walk_of(g, w1) =~= Seq::<NodeId>::empty());
    }
}

/// A walker made by [`Program::visit_nodes_from`] yields each node reachable from `root`
/// exactly once, and no other; with [`lemma_next_steps_walk`], the calls of
/// [`GraphWalker::next`] return those nodes, each once, and then `None`.
pub proof fn lemma_walk_of_root(g: Seq<Node>, root: NodeId, w: GraphWalker)
    requires
        forall|i: int| 0 <= i < g.len() ==> edges_ok(#[trigger] g[i], g.len()),
        id_ok(root, g.len()),
        w.current() is None,
        w.queue() == seq![root],
        w.visited() == Seq::new(g.len(), |i: int| false),
    ensures
        forall|i: int, j: int| 0 <= i < j < walk_of(g, w).len() ==> walk_of(g, w)[i] != walk_of(g, w)[j],
        forall|x: NodeId| walk_of(g, w).contains(x) <==> reachable(g, root, x, w.follows_then()),
{
    lemma_fresh_count_all(g.len());
    lemma_walk_visits_reachable(g, root, w.follows_then());
}

/// Whether `s` is marked in `v` or waits in `q`.
pub open spec fn covered(s: NodeId, q: Seq<NodeId>, v: Seq<bool>) -> bool {
    v[s.idx() as int] || q.contains(s)
}

/// A walk from `root` visits each node reachable from `root` exactly once, and no other:
/// stepping a walker made by [`Program::visit_nodes_from`] with [`GraphWalker::next`] until
/// it returns `None` (after at most one step per node) yields exactly those nodes.
pub proof fn lemma_walk_visits_reachable(g: Seq<Node>, root: NodeId, ft: bool)
    requires
        forall|i: int| 0 <= i < g.len() ==> edges_ok(#[trigger] g[i], g.len()),
        id_ok(root, g.len()),
    ensures
        ({
            let w = walk_from(g, None, seq![root], Seq::new(g.len(), |i: int| false), ft, g.len() + 1);
            &&& forall|i: int, j: int| 0 <= i < j < w.len() ==> w[i] != w[j]
            &&& forall|x: NodeId| w.contains(x) <==> reachable(g, root, x, ft)
        }),
{
    let v = Seq::new(g.len(), |i: int| false);
    lemma_fresh_count_bound(v);
    assert(seq![root].contains(root)) by {
        assert(seq![root][0] == root);
    }
    assert forall|j: int| 0 <= j < seq![root].len() implies reachable(g, root, #[trigger] seq![root][j], ft) by {
        let path = seq![root];
        assert(is_path(g, path, ft));
    }
    lemma_walk_inv(g, root, ft, None, seq![root], v, g.len() + 1);
    let w = walk_from(g, None, seq![root], v, ft, g.len() + 1);
    assert forall|x: NodeId| w.contains(x) <==> reachable(g, root, x, ft) by {
        if reachable(g, root, x, ft) {
            assert(!v[x.idx() as int]) by {
                lemma_reachable_in_graph(g, root, x, ft);
            }
        }
    }
}

proof fn lemma_fresh_count_bound(v: Seq<bool>)
    ensures
        fresh_count(v) <= v.len(),
    decreases v.len(),
{
    if v.len() > 0 {
        lemma_fresh_count_bound(v.drop_last());
    }
}

/// A reachable node is one of the graph's nodes, given a valid root.
proof fn lemma_reachable_in_graph(g: Seq<Node>, root: NodeId, x: NodeId, ft: bool)
    requires
        forall|i: int| 0 <= i < g.len() ==> edges_ok(#[trigger] g[i], g.len()),
        id_ok(root, g.len()),
        reachable(g, root, x, ft),
    ensures
        x.idx() < g.len(),
{
    let path = choose|path: Seq<NodeId>| #![trigger is_path(g, path, ft)]
        path.len() > 0 && path[0] == root && path.last() == x && is_path(g, path, ft);
    if path.len() > 1 {
        let i = path.len() - 2;
        let j = path.len() - 1;
        assert(edge(g, path[i], path[j], ft));
        lemma_successors_in_graph(g, path[i], ft);
        let k = choose|k: int| 0 <= k < successors(g[path[i].idx() as int], ft).len() && successors(g[path[i].idx() as int], ft)[k] == x;
    }
}

/// The successors of a node of the graph are nodes of the graph.
proof fn lemma_successors_in_graph(g: Seq<Node>, y: NodeId, ft: bool)
    requires
        forall|i: int| 0 <= i < g.len() ==> edges_ok(#[trigger] g[i], g.len()),
        y.idx() < g.len(),
    ensures
        forall|j: int|
            0 <= j < successors(g[y.idx() as int], ft).len() ==> (#[trigger] successors(g[y.idx() as int], ft)[j]).idx()
                < g.len(),
{
    assert(edges_ok(g[y.idx() as int], g.len()));
}

/// A successor of a reachable node is reachable.
proof fn lemma_reachable_step(g: Seq<Node>, root: NodeId, y: NodeId, s: NodeId, ft: bool)
    requires
        reachable(g, root, y, ft),
        y.idx() < g.len(),
        successors(g[y.idx() as int], ft).contains(s),
    ensures
        reachable(g, root, s, ft),
{
    let path = choose|path: Seq<NodeId>| #![trigger is_path(g, path, ft)]
        path.len() > 0 && path[0] == root && path.last() == y && is_path(g, path, ft);
    let longer = path.push(s);
    assert forall|i: int, j: int| 0 <= i && j == i + 1 && j < longer.len() implies edge(
        g,
        #[trigger] longer[i],
        #[trigger] longer[j],
        ft,
    ) by {
        if j < path.len() {
            assert(longer[i] == path[i] && longer[j] == path[j]);
            assert(edge(g, path[i], path[j], ft));
        } else {
            assert(longer[i] == y && longer[j] == s);
        }
    }
    assert(longer[0] == root);
    assert(is_path(g, longer, ft));
}

/// In a set of marks that holds `root` and is closed under successors, every node
/// reachable from `root` is marked.
proof fn lemma_reach_closed(g: Seq<Node>, root: NodeId, ft: bool, v: Seq<bool>, x: NodeId)
    requires
        v[root.idx() as int],
        forall|y: NodeId, j: int|
            y.idx() < g.len() && v[y.idx() as int] && 0 <= j < successors(g[y.idx() as int], ft).len() ==> v[(
            #[trigger] successors(g[y.idx() as int], ft)[j]).idx() as int],
        reachable(g, root, x, ft),
    ensures
        v[x.idx() as int],
{
    let path = choose|path: Seq<NodeId>| #![trigger is_path(g, path, ft)]
        path.len() > 0 && path[0] == root && path.last() == x && is_path(g, path, ft);
    lemma_path_marked(g, ft, v, path, path.len() - 1);
}

/// Along a path that starts at a marked node, in marks closed under successors, the
/// node at `k` is marked.
proof fn lemma_path_marked(g: Seq<Node>, ft: bool, v: Seq<bool>, path: Seq<NodeId>, k: int)
    requires
        path.len() > 0,
        v[path[0].idx() as int],
        is_path(g, path, ft),
        forall|y: NodeId, j: int|
            y.idx() < g.len() && v[y.idx() as int] && 0 <= j < successors(g[y.idx() as int], ft).len() ==> v[(
            #[trigger] successors(g[y.idx() as int], ft)[j]).idx() as int],
        0 <= k < path.len(),
    ensures
        v[path[k].idx() as int],
    decreases k,
{
    if k > 0 {
        lemma_path_marked(g, ft, v, path, k - 1);
        let y = path[k - 1];
        assert(edge(g, path[k - 1], path[k], ft));
        let j = choose|j: int| 0 <= j < successors(g[y.idx() as int], ft).len() && successors(g[y.idx() as int], ft)[j] == path[k];
        assert(v[(successors(g[y.idx() as int], ft)[j]).idx() as int]);
    }
}

/// What the first fresh position says: every node before it is marked, and the node
/// at it (if any) is not.
proof fn lemma_first_fresh_props(p: Seq<NodeId>, v: Seq<bool>)
    ensures
        0 <= first_fresh(p, v) <= p.len(),
        forall|j: int| 0 <= j < first_fresh(p, v) ==> v[(#[trigger] p[j]).idx() as int],
        first_fresh(p, v) < p.len() ==> !v[p[first_fresh(p, v)].idx() as int],
    decreases p.len(),
{
    if p.len() > 0 && v[p[0].idx() as int] {
        lemma_first_fresh_props(p.drop_first(), v);
        assert forall|j: int| 0 <= j < first_fresh(p, v) implies v[(#[trigger] p[j]).idx() as int] by {
            if j > 0 {
                assert(p[j] == p.drop_first()[j - 1]);
            }
        }
    }
}

/// The walk from a state visits, each once, exactly the reachable nodes that are not
/// marked yet, given the walk's invariant: marked nodes are reachable, the queue holds
/// reachable nodes, and the successors of each marked node but the last one visited
/// are marked or queued.
proof fn lemma_walk_inv(
    g: Seq<Node>,
    root: NodeId,
    ft: bool,
    c: Option<NodeId>,
    q: Seq<NodeId>,
    v: Seq<bool>,
    fuel: nat,
)
    requires
        forall|i: int| 0 <= i < g.len() ==> edges_ok(#[trigger] g[i], g.len()),
        id_ok(root, g.len()),
        v.len() == g.len(),
        forall|j: int| 0 <= j < q.len() ==> (#[trigger] q[j]).idx() < g.len(),
        c matches Some(x) ==> x.idx() < g.len() && v[x.idx() as int],
        forall|x: NodeId, j: int|
            x.idx() < g.len() && v[x.idx() as int] && c != Some(x) && 0 <= j < successors(
                g[x.idx() as int],
                ft,
            ).len() ==> covered(#[trigger] successors(g[x.idx() as int], ft)[j], q, v),
        forall|x: NodeId| x.idx() < g.len() && #[trigger] v[x.idx() as int] ==> reachable(g, root, x, ft),
        forall|j: int| 0 <= j < q.len() ==> reachable(g, root, #[trigger] q[j], ft),
        covered(root, q, v),
        fuel >= fresh_count(v) + 1,
    ensures
        ({
            let w = walk_from(g, c, q, v, ft, fuel);
            &&& forall|i: int, j: int| 0 <= i < j < w.len() ==> w[i] != w[j]
            &&& forall|x: NodeId| #[trigger] w.contains(x) ==> x.idx() < g.len() && !v[x.idx() as int] && reachable(g, root, x, ft)
            &&& forall|x: NodeId| reachable(g, root, x, ft) ==> v[x.idx() as int] || #[trigger] w.contains(x)
        }),
    decreases fuel,
{
    let p = walk_pending(g, c, q, ft);
    let k = first_fresh(p, v);
    lemma_first_fresh_props(p, v);
    assert forall|i: int| 0 <= i < q.len() implies #[trigger] p[i] == q[i] by {}
    if let Some(x) = c {
        lemma_successors_in_graph(g, x, ft);
        assert forall|j: int| 0 <= j < successors(g[x.idx() as int], ft).len() implies p[q.len() + j]
            == #[trigger] successors(g[x.idx() as int], ft)[j] by {}
    }
    assert forall|i: int| 0 <= i < p.len() implies (#[trigger] p[i]).idx() < g.len() && reachable(g, root, p[i], ft) by {
        if i >= q.len() {
            let x = c.unwrap();
            let j = i - q.len();
            assert(p[i] == successors(g[x.idx() as int], ft)[j]);
            assert(successors(g[x.idx() as int], ft).contains(p[i]));
            lemma_reachable_step(g, root, x, p[i], ft);
        }
    }
    let w = walk_from(g, c, q, v, ft, fuel);
    if k < p.len() {
        let n = p[k];
        let q2 = p.subrange(k + 1, p.len() as int);
        let v2 = v.update(n.idx() as int, true);
        lemma_fresh_count_mark(v, n.idx() as int);
        assert forall|i: int| 0 <= i < p.len() implies covered(#[trigger] p[i], q2, v2) by {
            if i > k {
                assert(q2[i - k - 1] == p[i]);
            }
        }
        assert forall|y: NodeId, j: int|
            y.idx() < g.len() && v2[y.idx() as int] && Some(n) != Some(y) && 0 <= j < successors(
                g[y.idx() as int],
                ft,
            ).len() implies covered(#[trigger] successors(g[y.idx() as int], ft)[j], q2, v2) by {
            let s = successors(g[y.idx() as int], ft)[j];
            if c == Some(y) {
                assert(p[q.len() + j] == s);
            } else {
                assert(v[y.idx() as int]);
                assert(covered(s, q, v));
                if !v[s.idx() as int] {
                    let i = choose|i: int| 0 <= i < q.len() && q[i] == s;
                    assert(p[i] == s);
                }
            }
        }
        assert forall|x: NodeId| x.idx() < g.len() && #[trigger] v2[x.idx() as int] implies reachable(g, root, x, ft) by {
            if x != n {
                assert(v[x.idx() as int]);
            }
        }
        assert forall|j: int| 0 <= j < q2.len() implies reachable(g, root, #[trigger] q2[j], ft) by {
            assert(q2[j] == p[j + k + 1]);
        }
        assert forall|j: int| 0 <= j < q2.len() implies (#[trigger] q2[j]).idx() < g.len() by {
            assert(q2[j] == p[j + k + 1]);
        }
        assert(covered(root, q2, v2)) by {
            if !v[root.idx() as int] {
                let i = choose|i: int| 0 <= i < q.len() && q[i] == root;
                assert(p[i] == root);
            }
        }
        lemma_walk_inv(g, root, ft, Some(n), q2, v2, (fuel - 1) as nat);
        let w2 = walk_from(g, Some(n), q2, v2, ft, (fuel - 1) as nat);
        assert(w == seq![n] + w2);
        assert forall|x: NodeId| #[trigger] w.contains(x) <==> (x == n || w2.contains(x)) by {
            if w.contains(x) {
                let i = choose|i: int| 0 <= i < w.len() && w[i] == x;
                if i > 0 {
                    assert(w2[i - 1] == x);
                }
            }
            if w2.contains(x) {
                let i = choose|i: int| 0 <= i < w2.len() && w2[i] == x;
                assert(w[i + 1] == x);
            }
            if x == n {
                assert(w[0] == x);
            }
        }
        assert forall|i: int, j: int| 0 <= i < j < w.len() implies w[i] != w[j] by {
            if i == 0 {
                assert(w[j] == w2[j - 1]);
                assert(w2.contains(w2[j - 1]));
            } else {
                assert(w[i] == w2[i - 1]);
                assert(w[j] == w2[j - 1]);
            }
        }
        assert forall|x: NodeId| #[trigger] w.contains(x) implies x.idx() < g.len() && !v[x.idx() as int] && reachable(g, root, x, ft) by {
            if x != n {
                assert(w2.contains(x));
            }
        }
        assert forall|x: NodeId| reachable(g, root, x, ft) implies v[x.idx() as int] || #[trigger] w.contains(x) by {
            lemma_reachable_in_graph(g, root, x, ft);
            if !v[x.idx() as int] && x != n {
                assert(x.idx() != n.idx());
                assert(!v2[x.idx() as int]);
                assert(w2.contains(x));
            }
        }
    } else {
        assert forall|y: NodeId, j: int|
            y.idx() < g.len() && v[y.idx() as int] && 0 <= j < successors(g[y.idx() as int], ft).len() implies v[(
            #[trigger] successors(g[y.idx() as int], ft)[j]).idx() as int] by {
            let s = successors(g[y.idx() as int], ft)[j];
            if c == Some(y) {
                assert(p[q.len() + j] == s);
            } else {
                assert(covered(s, q, v));
                if !v[s.idx() as int] {
                    let i = choose|i: int| 0 <= i < q.len() && q[i] == s;
                    assert(p[i] == s);
                }
            }
        }
        assert(v[root.idx() as int]) by {
            if !v[root.idx() as int] {
                let i = choose|i: int| 0 <= i < q.len() && q[i] == root;
                assert(p[i] == root);
            }
        }
        assert forall|x: NodeId| reachable(g, root, x, ft) implies v[x.idx() as int] || #[trigger] w.contains(x) by {
            lemma_reach_closed(g, root, ft, v, x);
        }
    }
}

/// Whether the values of `ks` are `0..ks.len()`, each once.
pub open spec fn values_permute(ks: Seq<HighlightKind>) -> bool {
    &&& forall|i: int| 0 <= i < ks.len() ==> (#[trigger] ks[i]).value < ks.len()
    &&& forall|i: int, j: int| 0 <= i < j < ks.len() ==> (#[trigger] ks[i]).value != (#[trigger] ks[j]).value
}

/// Interning keeps the values of the highlight kinds a permutation of `0..n`: a kind
/// that is new gets the value `n` and is inserted (as
/// [`Program::intern_highlight_kind`] does), and a known one changes nothing.
pub proof fn lemma_intern_keeps_values_permuted(k0: Seq<HighlightKind>, k1: Seq<HighlightKind>, p: int)
    requires
        values_permute(k0),
        k1 == k0 || (0 <= p <= k0.len() && k1 == k0.insert(p, k1[p]) && k1[p].value == k0.len()),
    ensures
        values_permute(k1),
{
    if k1 != k0 {
        assert forall|i: int| 0 <= i < k1.len() implies (#[trigger] k1[i]).value < k1.len() by {
            if i < p {
                assert(k1[i] == k0[i]);
            } else if i > p {
                assert(k1[i] == k0[i - 1]);
            }
        }
        assert forall|i: int, j: int| 0 <= i < j < k1.len() implies (#[trigger] k1[i]).value != (#[trigger] k1[j]).value by {
            if i < p {
                assert(k1[i] == k0[i]);
            } else if i > p {
                assert(k1[i] == k0[i - 1]);
            }
            if j < p {
                assert(k1[j] == k0[j]);
            } else if j > p {
                assert(k1[j] == k0[j - 1]);
            }
        }
    }
}

} // verus!
