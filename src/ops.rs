use vstd::prelude::*;
use crate::halstead::{keys_of, lemma_push_key_set, HalsteadMaps};
use crate::node::{Node, SpaceKind};
use crate::shape::{
    child_starts, first_from, lemma_child_starts_split, lemma_first_from, lemma_reaches_step,
    lemma_scan_end, reaches, scope_end, step,
};
use crate::spaces::{
    node_header, node_fits, opened_upto, opening_headers, operand_texts, span_of, tokens_met, FuncSpace,
};

verus! {

/// What `String::from_utf8_lossy` makes of some bytes.
pub uninterp spec fn lossy_text(b: Seq<u8>) -> Seq<char>;

/// Relies on `String::from_utf8_lossy`: the text of an operand's bytes,
/// invalid sequences replaced; the result depends on the bytes alone.
#[verifier::external_body]
fn decode_operand(b: &Vec<u8>) -> (r: String)
    ensures
        r@ == lossy_text(b@),
{
    String::from_utf8_lossy(b.as_slice()).into_owned()
}

/// All operands and operators of a space.
#[derive(Debug)]
pub struct Ops {
    /// The name of a function space; `None` when the adapter could not
    /// resolve one.
    pub name: Option<String>,
    /// The first line of a function space.
    pub start_line: usize,
    /// The last line of a function space.
    pub end_line: usize,
    /// The space kind.
    pub kind: SpaceKind,
    /// All subspaces contained in a function space.
    pub spaces: Vec<Ops>,
    /// All operands of a space.
    pub operands: Vec<String>,
    /// All operators of a space.
    pub operators: Vec<String>,
}

/// Configuration options for retrieving all the operands and operators in
/// a code.
pub struct OpsCfg {
    /// Path to the file containing the code.
    pub path: String,
}

/// The operand-and-operator report.
pub struct OpsCode {
    _guard: (),
}

/// The lists of `ops` are the distinct operators (by spelling, from
/// `names`) and operands (as text) of `maps`, in the order first met.
pub open spec fn lists_match(ops: Ops, maps: HalsteadMaps, names: Seq<String>) -> bool {
    let keys = keys_of(maps.operator_entries());
    &&& ops.operators@.len() == keys.len()
    &&& forall|q: int|
        0 <= q < keys.len() ==> (#[trigger] ops.operators@[q])@ == names[keys[q] as int]@
    &&& ops.operands@.len() == maps.operand_entries().len()
    &&& forall|q: int|
        0 <= q < ops.operands@.len() ==> (#[trigger] ops.operands@[q])@ == lossy_text(
            maps.operand_entries()[q].0,
        )
}

/// Every operator identity met at the first `i` nodes has a spelling.
pub open spec fn operators_named(nodes: Seq<Node>, n_names: int) -> bool {
    forall|j: int, q: int|
        0 <= j < nodes.len() && 0 <= q < nodes[j].operators@.len() ==> #[trigger] nodes[j].operators@[q]
            < n_names
}

/// Every operator identity a map holds has a spelling.
pub open spec fn keys_named(maps: HalsteadMaps, n_names: int) -> bool {
    forall|q: int|
        0 <= q < maps.operator_entries().len() ==> #[trigger] maps.operator_entries()[q].0 < n_names
}

impl Ops {
    /// The space a node opens, with no subspace, operand or operator.
    pub fn new(node: &Node) -> (r: Ops)
        requires
            node_fits(*node),
        ensures
            (r.start_line as int, r.end_line as int) == span_of(*node),
            r.kind == node.kind,
            r.name == node.name,
            r.spaces@.len() == 0,
            r.operands@.len() == 0,
            r.operators@.len() == 0,
    {
        let f = FuncSpace::new(node);
        Ops {
            name: f.name,
            start_line: f.start_line,
            end_line: f.end_line,
            kind: f.kind,
            spaces: Vec::new(),
            operands: Vec::new(),
            operators: Vec::new(),
        }
    }

    /// Appends the operands and operators of `other` to these.
    pub fn merge_ops(&mut self, other: &Ops)
        ensures
            final(self).operands@.len() == old(self).operands@.len() + other.operands@.len(),
            final(self).operators@.len() == old(self).operators@.len() + other.operators@.len(),
            forall|q: int|
                0 <= q < old(self).operands@.len() ==> (#[trigger] final(self).operands@[q])@ == old(
                    self,
                ).operands@[q]@,
            forall|q: int|
                0 <= q < other.operands@.len() ==> (#[trigger] final(self).operands@[old(
                    self,
                ).operands@.len() + q])@ == other.operands@[q]@,
            forall|q: int|
                0 <= q < old(self).operators@.len() ==> (#[trigger] final(self).operators@[q])@
                    == old(self).operators@[q]@,
            forall|q: int|
                0 <= q < other.operators@.len() ==> (#[trigger] final(self).operators@[old(
                    self,
                ).operators@.len() + q])@ == other.operators@[q]@,
            final(self).spaces == old(self).spaces,
            final(self).name == old(self).name,
            final(self).kind == old(self).kind,
    {
        let ghost o = self.operands@;
        let mut j: usize = 0;
        while j < other.operands.len()
            invariant
                0 <= j <= other.operands@.len(),
                self.operands@.len() == o.len() + j,
                forall|q: int| 0 <= q < o.len() ==> (#[trigger] self.operands@[q])@ == o[q]@,
                forall|q: int|
                    0 <= q < j ==> (#[trigger] self.operands@[o.len() + q])@ == other.operands@[q]@,
                self.operators == old(self).operators,
                self.spaces == old(self).spaces,
                self.name == old(self).name,
                self.kind == old(self).kind,
                o == old(self).operands@,
            decreases other.operands@.len() - j,
        {
            let t = other.operands[j].clone();
            self.operands.push(t);
            j = j + 1;
        }
        let ghost p = self.operators@;
        let mut j: usize = 0;
        while j < other.operators.len()
            invariant
                0 <= j <= other.operators@.len(),
                self.operators@.len() == p.len() + j,
                forall|q: int| 0 <= q < p.len() ==> (#[trigger] self.operators@[q])@ == p[q]@,
                forall|q: int|
                    0 <= q < j ==> (#[trigger] self.operators@[p.len() + q])@ == other.operators@[q]@,
                self.operands@.len() == o.len() + other.operands@.len(),
                forall|q: int| 0 <= q < o.len() ==> (#[trigger] self.operands@[q])@ == o[q]@,
                forall|q: int|
                    0 <= q < other.operands@.len() ==> (#[trigger] self.operands@[o.len() + q])@
                        == other.operands@[q]@,
                self.spaces == old(self).spaces,
                self.name == old(self).name,
                self.kind == old(self).kind,
                o == old(self).operands@,
                p == old(self).operators@,
            decreases other.operators@.len() - j,
        {
            let t = other.operators[j].clone();
            self.operators.push(t);
            j = j + 1;
        }
    }

    /// Replaces the lists with the distinct operators and operands of `maps`.
    fn fill_lists(&mut self, maps: &HalsteadMaps, names: &Vec<String>)
        requires
            keys_named(*maps, names@.len() as int),
        ensures
            lists_match(*final(self), *maps, names@),
            final(self).spaces == old(self).spaces,
            final(self).name == old(self).name,
            final(self).kind == old(self).kind,
            final(self).start_line == old(self).start_line,
            final(self).end_line == old(self).end_line,
    {
        let keys = maps.operator_keys();
        let mut operators: Vec<String> = Vec::new();
        let mut j: usize = 0;
        while j < keys.len()
            invariant
                keys@ == keys_of(maps.operator_entries()),
                keys_named(*maps, names@.len() as int),
                0 <= j <= keys@.len(),
                operators@.len() == j,
                forall|q: int| 0 <= q < j ==> (#[trigger] operators@[q])@ == names@[keys@[q] as int]@,
            decreases keys@.len() - j,
        {
            assert(keys@[j as int] == maps.operator_entries()[j as int].0);
            let t = names[keys[j] as usize].clone();
            operators.push(t);
            j = j + 1;
        }
        let texts = maps.operand_keys();
        let mut operands: Vec<String> = Vec::new();
        let mut j: usize = 0;
        while j < texts.len()
            invariant
                texts@.len() == maps.operand_entries().len(),
                forall|q: int|
                    0 <= q < texts@.len() ==> #[trigger] texts@[q]@ == maps.operand_entries()[q].0,
                0 <= j <= texts@.len(),
                operands@.len() == j,
                forall|q: int|
                    0 <= q < j ==> (#[trigger] operands@[q])@ == lossy_text(
                        maps.operand_entries()[q].0,
                    ),
            decreases texts@.len() - j,
        {
            let t = decode_operand(&texts[j]);
            operands.push(t);
            j = j + 1;
        }
        self.operators = operators;
        self.operands = operands;
    }
}

/// An open space while the tree is walked.
struct OpsState {
    ops: Ops,
    maps: HalsteadMaps,
    depth: usize,
    opener: usize,
}

spec fn ops_states_ok(s: Seq<OpsState>, n_names: int) -> bool {
    forall|j: int| 0 <= j < s.len() ==> (#[trigger] s[j]).maps.wf() && keys_named(s[j].maps, n_names)
}

/// `p_new` is `p_old` with the closed `c_old` merged in: the child, its lists
/// filled from its own merged maps, is the parent's new last subspace, and
/// the parent's maps gain the child's keys and counts.
spec fn ops_closed_into(p_old: OpsState, c_old: OpsState, p_new: OpsState, names: Seq<String>) -> bool {
    let c = p_new.ops.spaces@.last();
    &&& p_new.ops.spaces@.len() == p_old.ops.spaces@.len() + 1
    &&& p_new.ops.spaces@.drop_last() == p_old.ops.spaces@
    &&& c.name == c_old.ops.name
    &&& c.kind == c_old.ops.kind
    &&& c.start_line == c_old.ops.start_line
    &&& c.end_line == c_old.ops.end_line
    &&& c.spaces == c_old.ops.spaces
    &&& lists_match(c, c_old.maps, names)
    &&& p_new.ops.name == p_old.ops.name
    &&& p_new.ops.kind == p_old.ops.kind
    &&& p_new.ops.start_line == p_old.ops.start_line
    &&& p_new.ops.end_line == p_old.ops.end_line
    &&& p_new.depth == p_old.depth
    &&& p_new.opener == p_old.opener
    &&& keys_of(p_new.maps.operator_entries()).to_set() == keys_of(p_old.maps.operator_entries()).to_set()
        + keys_of(c_old.maps.operator_entries()).to_set()
    &&& keys_of(p_new.maps.operand_entries()).to_set() == keys_of(p_old.maps.operand_entries()).to_set()
        + keys_of(c_old.maps.operand_entries()).to_set()
    &&& forall|x: u16|
        #![trigger p_new.maps.operator_count(x)]
        p_new.maps.operator_count(x) == crate::nexits::sat_add(
            p_old.maps.operator_count(x),
            c_old.maps.operator_count(x),
        )
    &&& forall|x: Seq<u8>|
        #![trigger p_new.maps.operand_count(x)]
        p_new.maps.operand_count(x) == crate::nexits::sat_add(
            p_old.maps.operand_count(x),
            c_old.maps.operand_count(x),
        )
}

/// Closes the innermost open space: its lists are filled from its merged
/// maps, which are merged into its parent's, and it is appended as its
/// parent's last subspace.
fn close_top(states: &mut Vec<OpsState>, names: &Vec<String>)
    requires
        old(states)@.len() >= 2,
        ops_states_ok(old(states)@, names@.len() as int),
    ensures
        final(states)@.len() == old(states)@.len() - 1,
        forall|j: int| 0 <= j < old(states)@.len() - 2 ==> final(states)@[j] == old(states)@[j],
        ops_closed_into(
            old(states)@[old(states)@.len() - 2],
            old(states)@[old(states)@.len() - 1],
            final(states)@[old(states)@.len() - 2],
            names@,
        ),
        ops_states_ok(final(states)@, names@.len() as int),
        ops_stack_flat(final(states)@) == ops_stack_flat(old(states)@),
        ops_stack_keys(final(states)@) == ops_stack_keys(old(states)@),
        forall|j: int|
            0 <= j < final(states)@.len() ==> (#[trigger] final(states)@[j]).depth == old(
                states,
            )@[j].depth,
{
    let ghost s = states@;
    let ghost n = s.len();
    let mut child = states.pop().unwrap();
    let mut parent = states.pop().unwrap();
    proof {
        assert(s[n - 1] == child);
        assert(s[n - 2] == parent);
    }
    let ghost c0 = child.ops;
    let ghost parent0 = parent.ops;
    child.ops.fill_lists(&child.maps, names);
    proof {
        let m = c0.spaces@.len() as int;
        assert(c0.spaces@.take(m) =~= child.ops.spaces@.take(m));
        lemma_ops_prefix(c0, child.ops, m);
        assert(ops_flat(child.ops) =~= ops_flat(c0));
    }
    parent.maps.merge(&child.maps);
    proof {
        crate::halstead::lemma_keys_below(
            parent.maps.operator_entries(),
            s[n - 2].maps.operator_entries(),
            child.maps.operator_entries(),
            names@.len() as int,
        );
    }
    let ghost cs = child.ops;
    parent.ops.spaces.push(child.ops);
    states.push(parent);
    proof {
        let m = parent0.spaces@.len() as int;
        assert(parent0.spaces@.take(m) =~= parent.ops.spaces@.take(m));
        lemma_ops_prefix(parent0, parent.ops, m);
        assert(parent.ops.spaces@[m] == cs);
        assert(parent.ops.spaces@.drop_last() =~= parent0.spaces@);
        assert(states@[n - 2] == parent);
        assert(child.maps == s[n - 1].maps);
        assert(ops_closed_into(s[n - 2], s[n - 1], parent, names@));
        assert(ops_flat(parent.ops) =~= ops_flat(parent0) + ops_flat(cs));
        let base = s.drop_last().drop_last();
        assert(states@.drop_last() =~= base);
        assert(s.drop_last().last() == s[n - 2]);
        assert(ops_stack_flat(s.drop_last()) == ops_stack_flat(base) + ops_flat(parent0));
        assert(ops_stack_flat(states@) =~= ops_stack_flat(s));
        assert(ops_stack_keys(s.drop_last()) == (
            ops_stack_keys(base).0 + keys_of(s[n - 2].maps.operator_entries()).to_set(),
            ops_stack_keys(base).1 + keys_of(s[n - 2].maps.operand_entries()).to_set(),
        ));
        assert(ops_stack_keys(states@).0 =~= ops_stack_keys(s).0);
        assert(ops_stack_keys(states@).1 =~= ops_stack_keys(s).1);
        assert forall|j: int| 0 <= j < states@.len() implies (#[trigger] states@[j]).maps.wf()
            && keys_named(states@[j].maps, names@.len() as int) by {
            if j < n - 2 {
                assert(states@[j] == s[j]);
            }
        }
        assert forall|j: int| 0 <= j < states@.len() implies (#[trigger] states@[j]).depth
            == s[j].depth by {
            if j < n - 2 {
                assert(states@[j] == s[j]);
            }
        }
    }
}

/// Retrieves all the operators and operands of a syntax tree, given as its
/// nodes in document order, space by space; `names` spells each operator
/// identity. The root space is named after `path`. Returns `None` when no
/// node opens a space.
///
/// The spaces nest as those of `metrics` do: each covers the node range of
/// the node that opened it, its subspaces are the spaces opened directly in
/// that range, in order, each named after its node, and its lists hold one
/// spelling for each distinct operator and one text for each distinct
/// operand met in its range.
pub fn operands_and_operators(nodes: &Vec<Node>, names: &Vec<String>, path: &String) -> (r: Option<Ops>)
    requires
        forall|j: int| 0 <= j < nodes@.len() ==> node_fits(#[trigger] nodes@[j]),
        operators_named(nodes@, names@.len() as int),
    ensures
        r.is_none() == !opened_upto(nodes@, nodes@.len() as int),
        r matches Some(root) ==> {
            &&& root.name matches Some(name) && name@ == path@
            &&& ops_flat(root) == opening_headers(nodes@, nodes@.len() as int)
            &&& operators_cover(root, tokens_met(nodes@, true, nodes@.len() as int).0, names@)
            &&& operands_cover(root, tokens_met(nodes@, true, nodes@.len() as int).1)
            &&& ops_from(root, nodes@, names@, first_from(nodes@, 0))
        },
{
    let ghost len = nodes@.len() as int;
    let ghost nn = names@.len() as int;
    let mut states: Vec<OpsState> = Vec::new();
    proof {
        reveal(ops_stack_shape);
    }
    let mut i: usize = 0;
    while i < nodes.len()
        invariant
            0 <= i <= len,
            len == nodes@.len(),
            nn == names@.len(),
            forall|j: int| 0 <= j < nodes@.len() ==> node_fits(#[trigger] nodes@[j]),
            operators_named(nodes@, nn),
            (states@.len() > 0) == opened_upto(nodes@, i as int),
            ops_states_ok(states@, nn),
            ops_stack_flat(states@) == opening_headers(nodes@, i as int),
            ops_stack_keys(states@) == tokens_met(nodes@, true, i as int),
            ops_stack_shape(states@, nodes@, names@, i as int),
        decreases len - i,
    {
        let node = &nodes[i];
        while states.len() > 1 && states[states.len() - 1].depth >= node.depth
            invariant
                (states@.len() > 0) == opened_upto(nodes@, i as int),
                ops_states_ok(states@, nn),
                nn == names@.len(),
                ops_stack_flat(states@) == opening_headers(nodes@, i as int),
                ops_stack_keys(states@) == tokens_met(nodes@, true, i as int),
                ops_stack_shape(states@, nodes@, names@, i as int),
                0 <= i < len,
                len == nodes@.len(),
                node == nodes@[i as int],
            decreases states@.len(),
        {
            let ghost before_close = states@;
            proof {
                assert(before_close[before_close.len() - 1].maps.wf());
            }
            close_top(&mut states, names);
            proof {
                lemma_ops_close_shape(before_close, states@, nodes@, names@, i as int);
            }
        }
        let ghost before = states@;
        if node.opens_space {
            let ghost s0 = states@;
            states.push(
                OpsState { ops: Ops::new(node), maps: HalsteadMaps::new(), depth: node.depth, opener: i },
            );
            proof {
                let no = states@.last().ops;
                assert(states@.drop_last() =~= s0);
                assert(ops_flat(no) =~= seq![ops_header(no)]);
                assert(ops_stack_flat(states@) =~= opening_headers(nodes@, i + 1));
                assert(keys_of(states@.last().maps.operator_entries()).to_set() =~= Set::<u16>::empty());
                assert(keys_of(states@.last().maps.operand_entries()).to_set() =~= Set::<Seq<u8>>::empty());
                assert(ops_stack_keys(states@).0 =~= ops_stack_keys(s0).0);
                assert(ops_stack_keys(states@).1 =~= ops_stack_keys(s0).1);
                assert(states@.drop_last() == before);
                assert(states@.last().opener == i);
                assert(ops_header(no) == node_header(nodes@, i as int));
                assert forall|j: int| 0 <= j < states@.len() implies (#[trigger] states@[j]).maps.wf()
                    && keys_named(states@[j].maps, nn) by {
                    if j < s0.len() {
                        assert(states@[j] == s0[j]);
                    }
                }
            }
        }
        proof {
            if !node.opens_space {
                assert(opening_headers(nodes@, i + 1) == opening_headers(nodes@, i as int));
            }
        }
        if states.len() > 0 {
            let ghost s1 = states@;
            let mut top = states.pop().unwrap();
            proof {
                assert(top == s1.last());
            }
            let ghost t0 = top;
            let ghost ka = keys_of(top.maps.operator_entries()).to_set();
            let ghost kb = keys_of(top.maps.operand_entries()).to_set();
            proof {
                assert(node.operators@.take(0).to_set() =~= Set::<u16>::empty());
                assert(operand_texts(*node).take(0).to_set() =~= Set::<Seq<u8>>::empty());
                assert(ka =~= ka + node.operators@.take(0).to_set());
                assert(kb =~= kb + operand_texts(*node).take(0).to_set());
            }
            let mut j: usize = 0;
            while j < node.operators.len()
                invariant
                    top.maps.wf(),
                    keys_named(top.maps, nn),
                    operators_named(nodes@, nn),
                    node == nodes@[i as int],
                    0 <= i < nodes@.len(),
                    top.ops == t0.ops,
                    top.opener == t0.opener,
                    top.depth == t0.depth,
                    0 <= j <= node.operators@.len(),
                    keys_of(top.maps.operator_entries()).to_set() == ka + node.operators@.take(
                        j as int,
                    ).to_set(),
                    keys_of(top.maps.operand_entries()).to_set() == kb,
                decreases node.operators@.len() - j,
            {
                let op = node.operators[j];
                assert(op < nn);
                let ghost before = top.maps;
                top.maps.add_operator(op, 1);
                proof {
                    let single = seq![(op, 1usize)];
                    assert(keys_of(single)[0] == op);
                    crate::halstead::lemma_keys_below(
                        top.maps.operator_entries(),
                        before.operator_entries(),
                        single,
                        nn,
                    );
                    assert(node.operators@.take(j + 1) =~= node.operators@.take(j as int).push(op));
                    lemma_push_key_set(node.operators@.take(j as int), op);
                    assert(keys_of(top.maps.operator_entries()).to_set() =~= ka
                        + node.operators@.take(j + 1).to_set());
                }
                j = j + 1;
            }
            assert(node.operators@.take(j as int) =~= node.operators@);
            let mut j: usize = 0;
            while j < node.operands.len()
                invariant
                    top.maps.wf(),
                    keys_named(top.maps, nn),
                    top.ops == t0.ops,
                    top.opener == t0.opener,
                    top.depth == t0.depth,
                    0 <= j <= node.operands@.len(),
                    keys_of(top.maps.operator_entries()).to_set() == ka + node.operators@.to_set(),
                    keys_of(top.maps.operand_entries()).to_set() == kb + operand_texts(*node).take(
                        j as int,
                    ).to_set(),
                decreases node.operands@.len() - j,
            {
                top.maps.add_operand(&node.operands[j], 1);
                proof {
                    let t = operand_texts(*node);
                    assert(t[j as int] == node.operands@[j as int]@);
                    assert(t.take(j + 1) =~= t.take(j as int).push(t[j as int]));
                    lemma_push_key_set(t.take(j as int), t[j as int]);
                    assert(keys_of(top.maps.operand_entries()).to_set() =~= kb + t.take(j + 1).to_set());
                }
                j = j + 1;
            }
            assert(operand_texts(*node).take(j as int) =~= operand_texts(*node));
            states.push(top);
            proof {
                assert(states@.drop_last() =~= s1.drop_last());
                assert(states@.last() == top);
                assert(t0 == s1.last());
                assert(keys_of(top.maps.operator_entries()).to_set() == ka + node.operators@.to_set());
                if node.opens_space {
                    assert(s1.drop_last() == before);
                    assert(ka =~= Set::<u16>::empty());
                    assert(kb =~= Set::<Seq<u8>>::empty());
                } else {
                    assert(s1 == before);
                }
                assert(ops_stack_flat(states@) =~= ops_stack_flat(s1));
                assert(ops_stack_keys(s1) == (
                    ops_stack_keys(s1.drop_last()).0 + ka,
                    ops_stack_keys(s1.drop_last()).1 + kb,
                ));
                assert(ops_stack_keys(states@).0 =~= tokens_met(nodes@, true, i + 1).0);
                assert(ops_stack_keys(states@).1 =~= tokens_met(nodes@, true, i + 1).1);
                assert forall|j: int| 0 <= j < states@.len() implies (#[trigger] states@[j]).maps.wf()
                    && keys_named(states@[j].maps, nn) by {
                    if j < s1.len() - 1 {
                        assert(states@[j] == s1[j]);
                    }
                }
            }
        }
        proof {
            if node.opens_space {
                assert(forall|j: int| 0 <= j < before.len() ==> states@[j] == before[j]);
            }
            lemma_ops_step_shape(before, states@, nodes@, names@, i as int);
            if states@.len() == 0 {
                assert(ops_stack_keys(states@) == tokens_met(nodes@, true, i + 1));
            }
            if !node.opens_space && states@.len() == 0 {
                assert(opening_headers(nodes@, i + 1) == opening_headers(nodes@, i as int));
            }
        }
        i = i + 1;
    }
    while states.len() > 1
        invariant
            (states@.len() > 0) == opened_upto(nodes@, len),
            ops_states_ok(states@, nn),
            nn == names@.len(),
            ops_stack_flat(states@) == opening_headers(nodes@, len),
            ops_stack_keys(states@) == tokens_met(nodes@, true, len),
            ops_stack_shape(states@, nodes@, names@, len),
            len == nodes@.len(),
        decreases states@.len(),
    {
        let ghost before_close = states@;
        proof {
            assert(before_close[before_close.len() - 1].maps.wf());
        }
        close_top(&mut states, names);
        proof {
            lemma_ops_close_shape(before_close, states@, nodes@, names@, len);
        }
    }
    if states.len() == 0 {
        return None;
    }
    let ghost s = states@;
    let mut root = states.pop().unwrap();
    proof {
        assert(root == s[0]);
        assert(s.drop_last() =~= Seq::<OpsState>::empty());
        assert(ops_stack_flat(s.drop_last()) == Seq::<(SpaceKind, int, int)>::empty());
        assert(s.last() == root);
        assert(ops_stack_flat(s) =~= ops_flat(root.ops));
        assert(ops_stack_keys(s.drop_last()) == (Set::<u16>::empty(), Set::<Seq<u8>>::empty()));
        assert(ops_stack_keys(s).0 =~= keys_of(root.maps.operator_entries()).to_set());
        assert(ops_stack_keys(s).1 =~= keys_of(root.maps.operand_entries()).to_set());
    }
    let ghost r0 = root.ops;
    root.ops.fill_lists(&root.maps, names);
    root.ops.name = Some(path.clone());
    proof {
        let m = r0.spaces@.len() as int;
        assert(r0.spaces@.take(m) =~= root.ops.spaces@.take(m));
        lemma_ops_prefix(r0, root.ops, m);
        assert(ops_flat(root.ops) =~= ops_flat(r0));
        lemma_operators_cover(root.ops, root.maps, names@);
        lemma_operands_cover(root.ops, root.maps, names@);
        assert(s[0].maps == root.maps);
        lemma_ops_root_from(s, root.ops, nodes@, names@);
    }
    Some(root.ops)
}

/// The kind and line span of a space.
pub open spec fn ops_header(o: Ops) -> (SpaceKind, int, int) {
    (o.kind, o.start_line as int, o.end_line as int)
}

/// The headers of a space and of all its subspaces, in document order.
pub open spec fn ops_flat(o: Ops) -> Seq<(SpaceKind, int, int)>
    decreases o, 1int, 0int,
{
    seq![ops_header(o)] + ops_flat_list(o, o.spaces@.len() as int)
}

/// The headers of the first `n` subspaces of `o` and of theirs.
pub open spec fn ops_flat_list(o: Ops, n: int) -> Seq<(SpaceKind, int, int)>
    decreases o, 0int, n,
{
    if n <= 0 || n > o.spaces@.len() {
        Seq::empty()
    } else {
        ops_flat_list(o, n - 1) + ops_flat(o.spaces@[n - 1])
    }
}

proof fn lemma_ops_prefix(a: Ops, b: Ops, n: int)
    requires
        0 <= n <= a.spaces@.len(),
        n <= b.spaces@.len(),
        a.spaces@.take(n) == b.spaces@.take(n),
    ensures
        ops_flat_list(a, n) == ops_flat_list(b, n),
    decreases n,
{
    if n > 0 {
        assert(a.spaces@.take(n - 1) =~= a.spaces@.take(n).take(n - 1));
        assert(b.spaces@.take(n - 1) =~= b.spaces@.take(n).take(n - 1));
        lemma_ops_prefix(a, b, n - 1);
        assert(a.spaces@[n - 1] == a.spaces@.take(n)[n - 1]);
        assert(b.spaces@[n - 1] == b.spaces@.take(n)[n - 1]);
    }
}

/// The headers of all open spaces and of their closed subspaces.
spec fn ops_stack_flat(s: Seq<OpsState>) -> Seq<(SpaceKind, int, int)>
    decreases s.len(),
{
    if s.len() == 0 {
        Seq::empty()
    } else {
        ops_stack_flat(s.drop_last()) + ops_flat(s.last().ops)
    }
}

/// The keys held by the open spaces' maps.
spec fn ops_stack_keys(s: Seq<OpsState>) -> (Set<u16>, Set<Seq<u8>>)
    decreases s.len(),
{
    if s.len() == 0 {
        (Set::empty(), Set::empty())
    } else {
        let p = ops_stack_keys(s.drop_last());
        (
            p.0 + keys_of(s.last().maps.operator_entries()).to_set(),
            p.1 + keys_of(s.last().maps.operand_entries()).to_set(),
        )
    }
}

/// `s` spells one of `ops`.
pub open spec fn spelled(s: Seq<char>, ops: Set<u16>, names: Seq<String>) -> bool {
    exists|k: u16| #[trigger] ops.contains(k) && s == names[k as int]@
}

/// `s` is the text of one of `opds`.
pub open spec fn decoded(s: Seq<char>, opds: Set<Seq<u8>>) -> bool {
    exists|t: Seq<u8>| #[trigger] opds.contains(t) && s == lossy_text(t)
}

/// The operators of `o` are one spelling for each operator in `ops`.
pub open spec fn operators_cover(o: Ops, ops: Set<u16>, names: Seq<String>) -> bool {
    &&& o.operators@.len() == ops.len()
    &&& forall|q: int|
        0 <= q < o.operators@.len() ==> #[trigger] spelled(o.operators@[q]@, ops, names)
    &&& forall|k: u16|
        #[trigger] ops.contains(k) ==> exists|q: int|
            0 <= q < o.operators@.len() && o.operators@[q]@ == names[k as int]@
}

/// The operands of `o` are one text for each operand in `opds`.
pub open spec fn operands_cover(o: Ops, opds: Set<Seq<u8>>) -> bool {
    &&& o.operands@.len() == opds.len()
    &&& forall|q: int|
        0 <= q < o.operands@.len() ==> #[trigger] decoded(o.operands@[q]@, opds)
    &&& forall|t: Seq<u8>|
        #[trigger] opds.contains(t) ==> exists|q: int|
            0 <= q < o.operands@.len() && o.operands@[q]@ == lossy_text(t)
}

proof fn lemma_operators_cover(o: Ops, maps: HalsteadMaps, names: Seq<String>)
    requires
        maps.wf(),
        lists_match(o, maps, names),
    ensures
        operators_cover(o, keys_of(maps.operator_entries()).to_set(), names),
{
    let ko = keys_of(maps.operator_entries());
    crate::halstead::lemma_entries_count_keys(maps.operator_entries());
    assert(ko.len() == maps.operator_entries().len());
    assert(o.operators@.len() == ko.to_set().len());
    assert forall|q: int| 0 <= q < o.operators@.len() implies #[trigger] spelled(
        o.operators@[q]@,
        ko.to_set(),
        names,
    ) by {
        let k = ko[q];
        assert(ko.contains(k));
        assert(ko.to_set().contains(k));
        assert(o.operators@[q]@ == names[ko[q] as int]@);
        assert(ko.to_set().contains(k) && o.operators@[q]@ == names[k as int]@);
    }
    assert forall|k: u16| #[trigger] ko.to_set().contains(k) implies exists|q: int|
        0 <= q < o.operators@.len() && o.operators@[q]@ == names[k as int]@ by {
        assert(ko.contains(k));
        let q = choose|q: int| 0 <= q < ko.len() && ko[q] == k;
        assert(o.operators@[q]@ == names[ko[q] as int]@);
    }
}

proof fn lemma_operands_cover(o: Ops, maps: HalsteadMaps, names: Seq<String>)
    requires
        maps.wf(),
        lists_match(o, maps, names),
    ensures
        operands_cover(o, keys_of(maps.operand_entries()).to_set()),
{
    let kd = keys_of(maps.operand_entries());
    crate::halstead::lemma_entries_count_keys(maps.operand_entries());
    assert(kd.len() == maps.operand_entries().len());
    assert(o.operands@.len() == kd.to_set().len());
    assert forall|q: int| 0 <= q < o.operands@.len() implies #[trigger] decoded(
        o.operands@[q]@,
        kd.to_set(),
    ) by {
        let t = kd[q];
        assert(t == maps.operand_entries()[q].0);
        assert(kd.contains(t));
        assert(kd.to_set().contains(t));
        assert(o.operands@[q]@ == lossy_text(maps.operand_entries()[q].0));
        assert(kd.to_set().contains(t) && o.operands@[q]@ == lossy_text(t));
    }
    assert forall|t: Seq<u8>| #[trigger] kd.to_set().contains(t) implies exists|q: int|
        0 <= q < o.operands@.len() && o.operands@[q]@ == lossy_text(t) by {
        assert(kd.contains(t));
        let q = choose|q: int| 0 <= q < kd.len() && kd[q] == t;
        assert(kd[q] == maps.operand_entries()[q].0);
        assert(o.operands@[q]@ == lossy_text(t));
    }
}

/// The operators and operand texts met at the nodes in `[a, b)`.
pub open spec fn range_keys(nodes: Seq<Node>, a: int, b: int) -> (Set<u16>, Set<Seq<u8>>)
    decreases b - a,
{
    if b <= a {
        (Set::empty(), Set::empty())
    } else {
        let p = range_keys(nodes, a, b - 1);
        (p.0 + nodes[b - 1].operators@.to_set(), p.1 + operand_texts(nodes[b - 1]).to_set())
    }
}

pub(crate) proof fn lemma_range_keys_split(nodes: Seq<Node>, a: int, b: int, c: int)
    requires
        a <= b <= c,
    ensures
        range_keys(nodes, a, c).0 == range_keys(nodes, a, b).0 + range_keys(nodes, b, c).0,
        range_keys(nodes, a, c).1 == range_keys(nodes, a, b).1 + range_keys(nodes, b, c).1,
    decreases c - b,
{
    if b < c {
        lemma_range_keys_split(nodes, a, b, c - 1);
        assert(range_keys(nodes, a, c).0 =~= range_keys(nodes, a, b).0 + range_keys(nodes, b, c).0);
        assert(range_keys(nodes, a, c).1 =~= range_keys(nodes, a, b).1 + range_keys(nodes, b, c).1);
    } else {
        assert(range_keys(nodes, a, c).0 =~= range_keys(nodes, a, b).0 + range_keys(nodes, b, c).0);
        assert(range_keys(nodes, a, c).1 =~= range_keys(nodes, a, b).1 + range_keys(nodes, b, c).1);
    }
}

/// `o` is the space opened at node `k`: its kind and span are node `k`'s,
/// its lists hold one spelling for each operator and one text for each
/// operand met in `k`'s node range, and its subspaces are the spaces opened
/// directly in that range, in document order, each named after its node and
/// built the same way.
pub open spec fn ops_from(o: Ops, nodes: Seq<Node>, names: Seq<String>, k: int) -> bool
    decreases o, 1int, 0int,
{
    let e = scope_end(nodes, k);
    let cs = child_starts(nodes, k + 1, e);
    &&& 0 <= k < nodes.len()
    &&& ops_header(o) == node_header(nodes, k)
    &&& operators_cover(o, range_keys(nodes, k, e).0, names)
    &&& operands_cover(o, range_keys(nodes, k, e).1)
    &&& o.spaces@.len() == cs.len()
    &&& ops_children_from(o, nodes, names, cs, o.spaces@.len() as int)
}

/// The first `m` subspaces of `o` are the spaces opened at `cs`.
pub open spec fn ops_children_from(o: Ops, nodes: Seq<Node>, names: Seq<String>, cs: Seq<int>, m: int) -> bool
    decreases o, 0int, m,
{
    if m <= 0 || m > o.spaces@.len() {
        true
    } else {
        &&& ops_children_from(o, nodes, names, cs, m - 1)
        &&& o.spaces@[m - 1].name == nodes[cs[m - 1]].name
        &&& ops_from(o.spaces@[m - 1], nodes, names, cs[m - 1])
    }
}

proof fn lemma_ops_children_prefix(
    a: Ops,
    b: Ops,
    nodes: Seq<Node>,
    names: Seq<String>,
    ca: Seq<int>,
    cb: Seq<int>,
    m: int,
)
    requires
        0 <= m <= a.spaces@.len(),
        m <= b.spaces@.len(),
        m <= ca.len(),
        m <= cb.len(),
        a.spaces@.take(m) == b.spaces@.take(m),
        ca.take(m) == cb.take(m),
    ensures
        ops_children_from(a, nodes, names, ca, m) == ops_children_from(b, nodes, names, cb, m),
    decreases m,
{
    if m > 0 {
        assert(a.spaces@.take(m - 1) =~= a.spaces@.take(m).take(m - 1));
        assert(b.spaces@.take(m - 1) =~= b.spaces@.take(m).take(m - 1));
        assert(ca.take(m - 1) =~= ca.take(m).take(m - 1));
        assert(cb.take(m - 1) =~= cb.take(m).take(m - 1));
        lemma_ops_children_prefix(a, b, nodes, names, ca, cb, m - 1);
        assert(a.spaces@[m - 1] == a.spaces@.take(m)[m - 1]);
        assert(b.spaces@[m - 1] == b.spaces@.take(m)[m - 1]);
        assert(ca[m - 1] == ca.take(m)[m - 1]);
        assert(cb[m - 1] == cb.take(m)[m - 1]);
    }
}

/// An open space, opened at its `opener`, walked up to node `f` (excluded).
#[verifier::opaque]
spec fn ops_open_from(st: OpsState, nodes: Seq<Node>, names: Seq<String>, f: int) -> bool {
    let k = st.opener as int;
    let cs = child_starts(nodes, k + 1, f);
    &&& 0 <= k < f <= nodes.len()
    &&& nodes[k].opens_space
    &&& st.depth == nodes[k].depth
    &&& ops_header(st.ops) == node_header(nodes, k)
    &&& st.ops.name == nodes[k].name
    &&& keys_of(st.maps.operator_entries()).to_set() == range_keys(nodes, k, f).0
    &&& keys_of(st.maps.operand_entries()).to_set() == range_keys(nodes, k, f).1
    &&& reaches(nodes, k + 1, f)
    &&& st.ops.spaces@.len() == cs.len()
    &&& ops_children_from(st.ops, nodes, names, cs, st.ops.spaces@.len() as int)
}

spec fn ops_frontier(s: Seq<OpsState>, j: int, i: int) -> int {
    if j + 1 < s.len() {
        s[j + 1].opener as int
    } else {
        i
    }
}

#[verifier::opaque]
spec fn ops_stack_shape(s: Seq<OpsState>, nodes: Seq<Node>, names: Seq<String>, i: int) -> bool {
    &&& forall|j: int| 0 <= j < s.len() ==> ops_open_from(#[trigger] s[j], nodes, names, ops_frontier(s, j, i))
    &&& s.len() > 0 ==> s[0].opener == first_from(nodes, 0)
    &&& forall|j: int| 1 <= j < s.len() ==> s[0].opener < (#[trigger] s[j]).opener
    &&& forall|j: int, m: int|
        #![trigger s[j], nodes[m]]
        1 <= j < s.len() && s[j].opener < m < i ==> nodes[m].depth > nodes[s[j].opener as int].depth
}

proof fn lemma_ops_open_basic(st: OpsState, nodes: Seq<Node>, names: Seq<String>, f: int)
    requires
        ops_open_from(st, nodes, names, f),
    ensures
        0 <= st.opener < f <= nodes.len(),
        st.depth == nodes[st.opener as int].depth,
{
    reveal(ops_open_from);
}

proof fn lemma_ops_closed_parent(
    p: OpsState,
    pn: OpsState,
    t: OpsState,
    nodes: Seq<Node>,
    names: Seq<String>,
    i: int,
)
    requires
        ops_open_from(p, nodes, names, t.opener as int),
        ops_open_from(t, nodes, names, i),
        t.maps.wf(),
        scope_end(nodes, t.opener as int) == i,
        ops_closed_into(p, t, pn, names),
    ensures
        ops_open_from(pn, nodes, names, i),
{
    reveal(ops_open_from);
    let kt = t.opener as int;
    let kp = p.opener as int;
    let c = pn.ops.spaces@.last();
    assert(step(nodes, kt) == i);
    lemma_operators_cover(c, t.maps, names);
    lemma_operands_cover(c, t.maps, names);
    let cst = child_starts(nodes, kt + 1, i);
    assert(c.spaces@.take(cst.len() as int) == t.ops.spaces@.take(cst.len() as int));
    lemma_ops_children_prefix(c, t.ops, nodes, names, cst, cst, cst.len() as int);
    assert(ops_from(c, nodes, names, kt));
    let csp = child_starts(nodes, kp + 1, kt);
    let csn = child_starts(nodes, kp + 1, i);
    lemma_child_starts_split(nodes, kp + 1, kt, i);
    assert(child_starts(nodes, kt, i) == seq![kt]);
    assert(csn =~= csp.push(kt));
    lemma_reaches_step(nodes, kp + 1, kt);
    lemma_range_keys_split(nodes, kp, kt, i);
    let m = csp.len() as int;
    assert(pn.ops.spaces@.take(m) =~= p.ops.spaces@.take(m));
    assert(csn.take(m) =~= csp.take(m));
    lemma_ops_children_prefix(pn.ops, p.ops, nodes, names, csn, csp, m);
    assert(pn.ops.spaces@[m] == c);
    assert(csn[m] == kt);
    assert(ops_children_from(pn.ops, nodes, names, csn, m + 1));
}

proof fn lemma_ops_close_shape(
    old_s: Seq<OpsState>,
    new_s: Seq<OpsState>,
    nodes: Seq<Node>,
    names: Seq<String>,
    i: int,
)
    requires
        old_s.len() >= 2,
        i <= nodes.len(),
        ops_stack_shape(old_s, nodes, names, i),
        old_s.last().maps.wf(),
        i == nodes.len() || nodes[i].depth <= old_s.last().depth,
        new_s.len() == old_s.len() - 1,
        forall|j: int| 0 <= j < old_s.len() - 2 ==> new_s[j] == old_s[j],
        ops_closed_into(old_s[old_s.len() - 2], old_s[old_s.len() - 1], new_s[old_s.len() - 2], names),
    ensures
        ops_stack_shape(new_s, nodes, names, i),
{
    reveal(ops_stack_shape);
    let n = old_s.len();
    let t = old_s[n - 1];
    let p = old_s[n - 2];
    let kt = t.opener as int;
    assert(ops_open_from(t, nodes, names, ops_frontier(old_s, n - 1, i)));
    assert(ops_open_from(p, nodes, names, ops_frontier(old_s, n - 2, i)));
    assert(old_s[0].opener < t.opener);
    lemma_ops_open_basic(t, nodes, names, i);
    assert(kt != first_from(nodes, 0));
    assert forall|m: int| kt + 1 <= m < i implies nodes[m].depth > nodes[kt].depth by {
        assert(old_s[n - 1] == t && nodes[m] == nodes[m]);
    }
    lemma_scan_end(nodes, kt, kt + 1, i);
    lemma_ops_closed_parent(p, new_s[n - 2], t, nodes, names, i);
    assert forall|j: int| 0 <= j < new_s.len() implies ops_open_from(
        #[trigger] new_s[j],
        nodes,
        names,
        ops_frontier(new_s, j, i),
    ) by {
        if j < n - 2 {
            assert(new_s[j] == old_s[j]);
            assert(ops_open_from(old_s[j], nodes, names, ops_frontier(old_s, j, i)));
            if j + 1 < n - 2 {
                assert(new_s[j + 1] == old_s[j + 1]);
            }
        }
    }
    assert forall|j: int| 1 <= j < new_s.len() implies old_s[0].opener < (#[trigger] new_s[j]).opener by {
        if j < n - 2 {
            assert(new_s[j] == old_s[j]);
        } else {
            assert(old_s[0].opener < old_s[n - 2].opener);
        }
    }
    if n > 2 {
        assert(new_s[0] == old_s[0]);
    }
    assert forall|j: int, mm: int|
        #![trigger new_s[j], nodes[mm]]
        1 <= j < new_s.len() && new_s[j].opener < mm < i implies nodes[mm].depth > nodes[new_s[j].opener as int].depth by {
        if j < n - 2 {
            assert(new_s[j] == old_s[j]);
            assert(old_s[j] == old_s[j] && nodes[mm] == nodes[mm]);
        } else {
            assert(old_s[n - 2] == old_s[n - 2] && nodes[mm] == nodes[mm]);
        }
    }
}

proof fn lemma_ops_openers_below(s: Seq<OpsState>, nodes: Seq<Node>, names: Seq<String>, i: int, j: int)
    requires
        ops_stack_shape(s, nodes, names, i),
        0 <= j < s.len(),
    ensures
        s[j].opener < i,
        1 <= j ==> nodes[s[j].opener as int].depth <= nodes[s.last().opener as int].depth,
    decreases s.len() - j,
{
    reveal(ops_stack_shape);
    assert(ops_open_from(s[j], nodes, names, ops_frontier(s, j, i)));
    lemma_ops_open_basic(s[j], nodes, names, ops_frontier(s, j, i));
    if j + 1 < s.len() {
        lemma_ops_openers_below(s, nodes, names, i, j + 1);
        if 1 <= j {
            let kn = s[j + 1].opener as int;
            assert(s[j].opener < kn < i);
            assert(s[j] == s[j] && nodes[kn] == nodes[kn]);
        }
    }
}

#[verifier::rlimit(100)]
proof fn lemma_ops_step_shape(
    old_s: Seq<OpsState>,
    new_s: Seq<OpsState>,
    nodes: Seq<Node>,
    names: Seq<String>,
    i: int,
)
    requires
        0 <= i < nodes.len(),
        ops_stack_shape(old_s, nodes, names, i),
        old_s.len() <= 1 || nodes[i].depth > old_s.last().depth,
        (old_s.len() > 0) == opened_upto(nodes, i),
        nodes[i].opens_space ==> {
            &&& new_s.len() == old_s.len() + 1
            &&& forall|j: int| 0 <= j < old_s.len() ==> new_s[j] == old_s[j]
            &&& new_s.last().opener == i
            &&& new_s.last().depth == nodes[i].depth
            &&& ops_header(new_s.last().ops) == node_header(nodes, i)
            &&& new_s.last().ops.name == nodes[i].name
            &&& new_s.last().ops.spaces@.len() == 0
            &&& keys_of(new_s.last().maps.operator_entries()).to_set() == Set::<u16>::empty()
                + nodes[i].operators@.to_set()
            &&& keys_of(new_s.last().maps.operand_entries()).to_set() == Set::<Seq<u8>>::empty()
                + operand_texts(nodes[i]).to_set()
        },
        !nodes[i].opens_space && old_s.len() > 0 ==> {
            &&& new_s.len() == old_s.len()
            &&& forall|j: int| 0 <= j < old_s.len() - 1 ==> new_s[j] == old_s[j]
            &&& new_s.last().opener == old_s.last().opener
            &&& new_s.last().depth == old_s.last().depth
            &&& new_s.last().ops == old_s.last().ops
            &&& keys_of(new_s.last().maps.operator_entries()).to_set() == keys_of(
                old_s.last().maps.operator_entries(),
            ).to_set() + nodes[i].operators@.to_set()
            &&& keys_of(new_s.last().maps.operand_entries()).to_set() == keys_of(
                old_s.last().maps.operand_entries(),
            ).to_set() + operand_texts(nodes[i]).to_set()
        },
        !nodes[i].opens_space && old_s.len() == 0 ==> new_s.len() == 0,
    ensures
        ops_stack_shape(new_s, nodes, names, i + 1),
{
    reveal(ops_stack_shape);
    let n = old_s.len();
    if n > 0 {
        lemma_ops_openers_below(old_s, nodes, names, i, 0);
        lemma_ops_openers_below(old_s, nodes, names, i, n - 1);
        assert(ops_open_from(old_s[n - 1], nodes, names, ops_frontier(old_s, n - 1, i)));
        lemma_ops_open_basic(old_s[n - 1], nodes, names, i);
    }
    if nodes[i].opens_space {
        let t = new_s.last();
        assert(ops_open_from(t, nodes, names, i + 1)) by {
            reveal(ops_open_from);
            assert(child_starts(nodes, i + 1, i + 1) =~= Seq::<int>::empty());
            assert(range_keys(nodes, i, i) == (Set::<u16>::empty(), Set::<Seq<u8>>::empty()));
        }
        if n == 0 {
            crate::spaces::lemma_no_opener_before(nodes, i);
            lemma_first_from(nodes, 0, i);
        }
        assert forall|j: int| 0 <= j < new_s.len() implies ops_open_from(
            #[trigger] new_s[j],
            nodes,
            names,
            ops_frontier(new_s, j, i + 1),
        ) by {
            if j < n {
                assert(new_s[j] == old_s[j]);
                assert(ops_open_from(old_s[j], nodes, names, ops_frontier(old_s, j, i)));
                if j + 1 < n {
                    assert(new_s[j + 1] == old_s[j + 1]);
                }
            }
        }
        if n > 0 {
            assert(new_s[0] == old_s[0]);
        }
        assert forall|j: int| 1 <= j < new_s.len() implies new_s[0].opener < (#[trigger] new_s[j]).opener by {
            if j < n {
                assert(new_s[j] == old_s[j]);
            }
        }
        assert forall|j: int, mm: int|
            #![trigger new_s[j], nodes[mm]]
            1 <= j < new_s.len() && new_s[j].opener < mm < i + 1 implies nodes[mm].depth
                > nodes[new_s[j].opener as int].depth by {
            if j < n {
                assert(new_s[j] == old_s[j]);
                if mm < i {
                    assert(old_s[j] == old_s[j] && nodes[mm] == nodes[mm]);
                } else {
                    lemma_ops_openers_below(old_s, nodes, names, i, j);
                }
            }
        }
    } else if n > 0 {
        let t0 = old_s.last();
        let t = new_s.last();
        assert(ops_open_from(t0, nodes, names, i));
        assert(ops_open_from(t, nodes, names, i + 1)) by {
            reveal(ops_open_from);
            let k = t.opener as int;
            assert(step(nodes, i) == i + 1);
            lemma_reaches_step(nodes, k + 1, i);
            lemma_child_starts_split(nodes, k + 1, i, i + 1);
            assert(child_starts(nodes, i + 1, i + 1) =~= Seq::<int>::empty());
            assert(child_starts(nodes, i, i + 1) == child_starts(nodes, i + 1, i + 1));
            let cs0 = child_starts(nodes, k + 1, i);
            let cs1 = child_starts(nodes, k + 1, i + 1);
            assert(cs1 =~= cs0);
        }
        assert forall|j: int| 0 <= j < new_s.len() implies ops_open_from(
            #[trigger] new_s[j],
            nodes,
            names,
            ops_frontier(new_s, j, i + 1),
        ) by {
            if j < n - 1 {
                assert(new_s[j] == old_s[j]);
                assert(ops_open_from(old_s[j], nodes, names, ops_frontier(old_s, j, i)));
                if j + 1 < n - 1 {
                    assert(new_s[j + 1] == old_s[j + 1]);
                }
            }
        }
        if n > 1 {
            assert(new_s[0] == old_s[0]);
        }
        assert forall|j: int| 1 <= j < new_s.len() implies new_s[0].opener < (#[trigger] new_s[j]).opener by {
            if j < n - 1 {
                assert(new_s[j] == old_s[j]);
            }
            assert(old_s[0].opener < old_s[j].opener);
        }
        assert forall|j: int, mm: int|
            #![trigger new_s[j], nodes[mm]]
            1 <= j < new_s.len() && new_s[j].opener < mm < i + 1 implies nodes[mm].depth
                > nodes[new_s[j].opener as int].depth by {
            if j < n - 1 {
                assert(new_s[j] == old_s[j]);
            }
            assert(new_s[j].opener == old_s[j].opener);
            if mm < i {
                assert(old_s[j] == old_s[j] && nodes[mm] == nodes[mm]);
            } else {
                lemma_ops_openers_below(old_s, nodes, names, i, j);
            }
        }
    }
}

proof fn lemma_ops_root_from(s: Seq<OpsState>, root: Ops, nodes: Seq<Node>, names: Seq<String>)
    requires
        s.len() == 1,
        s[0].maps.wf(),
        ops_stack_shape(s, nodes, names, nodes.len() as int),
        root.spaces == s[0].ops.spaces,
        ops_header(root) == ops_header(s[0].ops),
        lists_match(root, s[0].maps, names),
    ensures
        ops_from(root, nodes, names, first_from(nodes, 0)),
{
    reveal(ops_stack_shape);
    reveal(ops_open_from);
    let st = s[0];
    assert(ops_open_from(st, nodes, names, ops_frontier(s, 0, nodes.len() as int)));
    let k = st.opener as int;
    lemma_operators_cover(root, st.maps, names);
    lemma_operands_cover(root, st.maps, names);
    let cs = child_starts(nodes, k + 1, nodes.len() as int);
    assert(root.spaces@.take(cs.len() as int) == st.ops.spaces@.take(cs.len() as int));
    lemma_ops_children_prefix(root, st.ops, nodes, names, cs, cs, cs.len() as int);
}

} // verus!
