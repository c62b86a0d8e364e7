use vstd::prelude::*;
use crate::cyclomatic;
use crate::halstead;
use crate::halstead::{exact_total, keys_of, lemma_push_key_set, HalsteadMaps};
use crate::ops::{lemma_range_keys_split, range_keys};
use crate::loc;
use crate::mi;
use crate::nargs;
use crate::nexits;
use crate::nexits::sat_add;
use crate::node::{Node, NodeCounts, SpaceKind};
use crate::nom;
use crate::selection::{ChosenMetrics, MetricsList};
use crate::shape::{
    child_starts, first_from, lemma_child_starts_split, lemma_first_from, lemma_range_split,
    lemma_reaches_step, lemma_scan_end, range_sum, reaches, scope_end, step,
};

verus! {

/// The additive counters of a node, in a fixed order: function and closure
/// arguments, function and closure exits, decision points, functions,
/// closures, and the five line counts.
pub open spec fn node_tally(c: NodeCounts) -> Seq<int> {
    Seq::new(12, |k: int|
        if k == 0 {
            c.fn_args as int
        } else if k == 1 {
            c.closure_args as int
        } else if k == 2 {
            c.fn_exits as int
        } else if k == 3 {
            c.closure_exits as int
        } else if k == 4 {
            c.cyclomatic as int
        } else if k == 5 {
            c.functions as int
        } else if k == 6 {
            c.closures as int
        } else if k == 7 {
            c.lines.sloc as int
        } else if k == 8 {
            c.lines.ploc as int
        } else if k == 9 {
            c.lines.lloc as int
        } else if k == 10 {
            c.lines.cloc as int
        } else {
            c.lines.blank as int
        })
}

/// The additive counters of a space's metrics, in the order of `node_tally`.
pub open spec fn metrics_tally(m: CodeMetrics) -> Seq<int> {
    Seq::new(12, |k: int|
        if k == 0 {
            m.nargs.fn_sum() as int
        } else if k == 1 {
            m.nargs.closure_sum() as int
        } else if k == 2 {
            m.nexits.fn_sum() as int
        } else if k == 3 {
            m.nexits.closure_sum() as int
        } else if k == 4 {
            m.cyclomatic.sum() as int
        } else if k == 5 {
            m.nom.fn_sum() as int
        } else if k == 6 {
            m.nom.closure_sum() as int
        } else if k == 7 {
            m.loc.lines().sloc as int
        } else if k == 8 {
            m.loc.lines().ploc as int
        } else if k == 9 {
            m.loc.lines().lloc as int
        } else if k == 10 {
            m.loc.lines().cloc as int
        } else {
            m.loc.lines().blank as int
        })
}

/// The metric each counter belongs to.
pub open spec fn counter_metric(k: int) -> MetricsList {
    if k < 2 {
        MetricsList::Nargs
    } else if k < 4 {
        MetricsList::Nexits
    } else if k < 5 {
        MetricsList::Cyclomatic
    } else if k < 7 {
        MetricsList::Nom
    } else {
        MetricsList::Loc
    }
}

/// Counter-wise sum.
pub open spec fn tadd(a: Seq<int>, b: Seq<int>) -> Seq<int> {
    Seq::new(12, |k: int| a[k] + b[k])
}

/// All counters zero.
pub open spec fn tzero() -> Seq<int> {
    Seq::new(12, |k: int| 0)
}

/// Every counter fits in a `usize`.
pub open spec fn tfits(a: Seq<int>) -> bool {
    forall|k: int| 0 <= k < 12 ==> a[k] <= usize::MAX
}

/// Counter-wise `a <= b`, all of them non-negative.
pub open spec fn tle(a: Seq<int>, b: Seq<int>) -> bool {
    forall|k: int| 0 <= k < 12 ==> 0 <= #[trigger] a[k] <= b[k]
}

/// Whether a metric runs under a selection (`None`: all of them).
pub open spec fn selected(chosen: Option<Seq<MetricsList>>, m: MetricsList) -> bool {
    match chosen {
        None => true,
        Some(s) => s.contains(m),
    }
}

/// The counters of a node that the selected metrics see.
pub open spec fn masked(t: Seq<int>, chosen: Option<Seq<MetricsList>>) -> Seq<int> {
    Seq::new(12, |k: int| if selected(chosen, counter_metric(k)) { t[k] } else { 0 })
}

/// The view of an optional selection.
pub open spec fn chosen_view(chosen: Option<&ChosenMetrics>) -> Option<Seq<MetricsList>> {
    match chosen {
        None => None,
        Some(c) => Some(c@),
    }
}

/// All metrics data.
#[derive(Debug, Clone)]
pub struct CodeMetrics {
    /// `NArgs` data
    pub nargs: nargs::Stats,
    /// `NExits` data
    pub nexits: nexits::Stats,
    /// `Cyclomatic` data
    pub cyclomatic: cyclomatic::Stats,
    /// `Halstead` data
    pub halstead: halstead::Stats,
    /// `Loc` data
    pub loc: loc::Stats,
    /// `Nom` data
    pub nom: nom::Stats,
    /// `Mi` data
    pub mi: mi::Stats,
}

/// The maintainability snapshot of `m` was taken from `m`'s own line,
/// decision-point and token metrics.
pub open spec fn mi_matches(m: CodeMetrics) -> bool {
    &&& m.mi.spec_sloc() == m.loc.lines().sloc
    &&& m.mi.spec_cloc() == m.loc.lines().cloc
    &&& m.mi.spec_cyclomatic() == m.cyclomatic.sum()
    &&& m.mi.spec_halstead() == m.halstead.counts()
}

/// The averages of `m` are taken over its own functions and closures.
pub open spec fn averages_match(m: CodeMetrics) -> bool {
    let n = sat_add(m.nom.fn_sum() as int, m.nom.closure_sum() as int);
    &&& m.nargs.space_functions() == n
    &&& m.nexits.space_functions() == n
    &&& m.cyclomatic.space_functions() == n
}

/// The token metric and the maintainability snapshot, which are not additive.
pub open spec fn derived_part(m: CodeMetrics) -> (
    (int, int, int, int),
    (nat, nat, nat, (int, int, int, int)),
    (nat, nat, nat),
) {
    (
        m.halstead.counts(),
        (m.mi.spec_sloc(), m.mi.spec_cloc(), m.mi.spec_cyclomatic(), m.mi.spec_halstead()),
        (m.nargs.space_functions(), m.nexits.space_functions(), m.cyclomatic.space_functions()),
    )
}

impl CodeMetrics {
    /// Metrics of a space with nothing in it.
    pub fn new() -> (r: CodeMetrics)
        ensures
            metrics_tally(r) == tzero(),
            r.halstead.counts() == (0int, 0int, 0int, 0int),
            mi_matches(r),
            averages_match(r),
    {
        let r = CodeMetrics {
            nargs: nargs::Stats::new(),
            nexits: nexits::Stats::new(),
            cyclomatic: cyclomatic::Stats::new(),
            halstead: halstead::Stats::new(),
            loc: loc::Stats::new(),
            nom: nom::Stats::new(),
            mi: mi::Stats::new(),
        };
        assert(metrics_tally(r) =~= tzero());
        r
    }

    /// Merges the metrics of a closed child space into these: every
    /// additive counter is summed; the token metric, the maintainability
    /// snapshot and the averages' denominators are left as they are, since
    /// they are derived per space.
    pub fn merge(&mut self, other: &CodeMetrics)
        requires
            tfits(tadd(metrics_tally(*old(self)), metrics_tally(*other))),
        ensures
            metrics_tally(*final(self)) == tadd(metrics_tally(*old(self)), metrics_tally(*other)),
            derived_part(*final(self)) == derived_part(*old(self)),
    {
        let ghost t = tadd(metrics_tally(*old(self)), metrics_tally(*other));
        assert(t[0] <= usize::MAX && t[1] <= usize::MAX && t[2] <= usize::MAX && t[3] <= usize::MAX);
        assert(t[4] <= usize::MAX && t[5] <= usize::MAX && t[6] <= usize::MAX);
        assert(t[7] <= usize::MAX && t[8] <= usize::MAX && t[9] <= usize::MAX);
        assert(t[10] <= usize::MAX && t[11] <= usize::MAX);
        self.cyclomatic.merge(&other.cyclomatic);
        self.loc.merge(&other.loc);
        self.nom.merge(&other.nom);
        self.nargs.merge(&other.nargs);
        self.nexits.merge(&other.nexits);
        assert(metrics_tally(*self) =~= t);
    }

    /// Adds what the selected metric hooks report for one node.
    pub fn add_node(&mut self, c: &NodeCounts, chosen: Option<&ChosenMetrics>)
        requires
            tfits(tadd(metrics_tally(*old(self)), masked(node_tally(*c), chosen_view(chosen)))),
        ensures
            metrics_tally(*final(self)) == tadd(
                metrics_tally(*old(self)),
                masked(node_tally(*c), chosen_view(chosen)),
            ),
            derived_part(*final(self)) == derived_part(*old(self)),
    {
        let ghost t = tadd(metrics_tally(*old(self)), masked(node_tally(*c), chosen_view(chosen)));
        let ghost cv = chosen_view(chosen);
        assert(t[0] <= usize::MAX && t[1] <= usize::MAX && t[2] <= usize::MAX && t[3] <= usize::MAX);
        assert(t[4] <= usize::MAX && t[5] <= usize::MAX && t[6] <= usize::MAX);
        assert(t[7] <= usize::MAX && t[8] <= usize::MAX && t[9] <= usize::MAX);
        assert(t[10] <= usize::MAX && t[11] <= usize::MAX);
        if is_selected(chosen, MetricsList::Nargs) {
            self.nargs.add(c.fn_args, c.closure_args);
        }
        if is_selected(chosen, MetricsList::Nexits) {
            self.nexits.add(c.fn_exits, c.closure_exits);
        }
        if is_selected(chosen, MetricsList::Cyclomatic) {
            self.cyclomatic.add(c.cyclomatic);
        }
        if is_selected(chosen, MetricsList::Nom) {
            self.nom.add(c.functions, c.closures);
        }
        if is_selected(chosen, MetricsList::Loc) {
            self.loc.add(c.lines);
        }
        assert(metrics_tally(*self) =~= t);
    }
}

impl Default for CodeMetrics {
    fn default() -> (r: CodeMetrics)
        ensures
            metrics_tally(r) == tzero(),
            r.halstead.counts() == (0int, 0int, 0int, 0int),
            mi_matches(r),
            averages_match(r),
    {
        CodeMetrics::new()
    }
}

/// Whether `m` runs under the selection.
fn is_selected(chosen: Option<&ChosenMetrics>, m: MetricsList) -> (r: bool)
    ensures
        r == selected(chosen_view(chosen), m),
{
    match chosen {
        None => true,
        Some(c) => c.is_metric(m),
    }
}

/// Function space data.
#[derive(Debug)]
pub struct FuncSpace {
    /// The name of a function space; `None` when the adapter could not
    /// resolve one.
    pub name: Option<String>,
    /// The first line of a function space
    pub start_line: usize,
    /// The last line of a function space
    pub end_line: usize,
    /// The space kind
    pub kind: SpaceKind,
    /// All subspaces contained in a function space
    pub spaces: Vec<FuncSpace>,
    /// All metrics of a function space
    pub metrics: CodeMetrics,
}

/// A node's rows are ordered and fit once turned into one-based lines.
pub open spec fn node_fits(n: Node) -> bool {
    n.start_row <= n.end_row && n.end_row < usize::MAX
}

/// The one-based line span of the space a node opens. A unit with no child
/// is an empty file, `(0, 0)`; a unit does not count its trailing line.
pub open spec fn span_of(n: Node) -> (int, int) {
    if n.kind == SpaceKind::Unit {
        if n.child_count == 0 {
            (0, 0)
        } else {
            (n.start_row + 1, n.end_row as int)
        }
    } else {
        (n.start_row + 1, n.end_row + 1)
    }
}

impl FuncSpace {
    /// The space a node opens, with no subspace and empty metrics.
    pub fn new(node: &Node) -> (r: FuncSpace)
        requires
            node_fits(*node),
        ensures
            (r.start_line as int, r.end_line as int) == span_of(*node),
            r.kind == node.kind,
            r.name == node.name,
            r.spaces@.len() == 0,
            metrics_tally(r.metrics) == tzero(),
            r.kind != SpaceKind::Unit ==> r.start_line <= r.end_line,
    {
        let (start_line, end_line) = match node.kind {
            SpaceKind::Unit => {
                if node.child_count == 0 {
                    (0, 0)
                } else {
                    (node.start_row + 1, node.end_row)
                }
            },
            _ => (node.start_row + 1, node.end_row + 1),
        };
        FuncSpace {
            name: node.name.clone(),
            start_line,
            end_line,
            kind: node.kind,
            spaces: Vec::new(),
            metrics: CodeMetrics::new(),
        }
    }
}

/// Configuration options for computing the metrics of a code.
pub struct MetricsCfg {
    /// Path to the file containing the code.
    pub path: String,
    /// Chosen metrics to be computed.
    pub chosen_metrics: Option<ChosenMetrics>,
}

/// The metrics report.
pub struct Metrics {
    _guard: (),
}

/// An open space while the tree is walked.
struct State {
    space: FuncSpace,
    maps: HalsteadMaps,
    depth: usize,
    opener: usize,
}

/// Some node among the first `i` opens a space.
pub open spec fn opened_upto(nodes: Seq<Node>, i: int) -> bool
    decreases i,
{
    if i <= 0 {
        false
    } else {
        nodes[i - 1].opens_space || opened_upto(nodes, i - 1)
    }
}

/// What the selected metrics count over the first `i` nodes, from the first
/// node that opens a space on (nodes before it belong to no space).
pub open spec fn attributed(nodes: Seq<Node>, chosen: Option<Seq<MetricsList>>, i: int) -> Seq<int>
    decreases i,
{
    if i <= 0 {
        tzero()
    } else if opened_upto(nodes, i) {
        tadd(attributed(nodes, chosen, i - 1), masked(node_tally(nodes[i - 1].counts), chosen))
    } else {
        attributed(nodes, chosen, i - 1)
    }
}

/// Every counter summed over the first `i` nodes.
pub open spec fn node_total(nodes: Seq<Node>, i: int) -> Seq<int>
    decreases i,
{
    if i <= 0 {
        tzero()
    } else {
        tadd(node_total(nodes, i - 1), node_tally(nodes[i - 1].counts))
    }
}

proof fn lemma_attributed_bounded(nodes: Seq<Node>, chosen: Option<Seq<MetricsList>>, i: int)
    requires
        0 <= i <= nodes.len(),
    ensures
        tle(attributed(nodes, chosen, i), node_total(nodes, i)),
    decreases i,
{
    if i > 0 {
        lemma_attributed_bounded(nodes, chosen, i - 1);
        let a = attributed(nodes, chosen, i - 1);
        let t = node_total(nodes, i - 1);
        assert forall|k: int| 0 <= k < 12 implies 0 <= #[trigger] attributed(nodes, chosen, i)[k]
            <= node_total(nodes, i)[k] by {
            assert(0 <= a[k] <= t[k]);
        }
    }
}

proof fn lemma_total_monotone(nodes: Seq<Node>, i: int, j: int)
    requires
        0 <= i <= j <= nodes.len(),
    ensures
        tle(node_total(nodes, i), node_total(nodes, j)),
    decreases j,
{
    if i < j {
        lemma_total_monotone(nodes, i, j - 1);
        assert forall|k: int| 0 <= k < 12 implies 0 <= #[trigger] node_total(nodes, i)[k]
            <= node_total(nodes, j)[k] by {
            assert(0 <= node_total(nodes, i)[k] <= node_total(nodes, j - 1)[k]);
        }
    } else {
        assert forall|k: int| 0 <= k < 12 implies 0 <= #[trigger] node_total(nodes, i)[k]
            <= node_total(nodes, j)[k] by {
            lemma_total_nonneg(nodes, i);
        }
    }
}

proof fn lemma_total_nonneg(nodes: Seq<Node>, i: int)
    ensures
        forall|k: int| 0 <= k < 12 ==> 0 <= #[trigger] node_total(nodes, i)[k],
    decreases i,
{
    if i > 0 {
        lemma_total_nonneg(nodes, i - 1);
        assert forall|k: int| 0 <= k < 12 implies 0 <= #[trigger] node_total(nodes, i)[k] by {
            assert(0 <= node_total(nodes, i - 1)[k]);
            assert(0 <= node_tally(nodes[i - 1].counts)[k]);
        }
    } else {
        assert forall|k: int| 0 <= k < 12 implies 0 <= #[trigger] node_total(nodes, i)[k] by {
            assert(node_total(nodes, i) == tzero());
        }
    }
}

/// The counters of all open spaces, summed.
spec fn stack_tally(s: Seq<State>) -> Seq<int>
    decreases s.len(),
{
    if s.len() == 0 {
        tzero()
    } else {
        tadd(stack_tally(s.drop_last()), metrics_tally(s.last().space.metrics))
    }
}

proof fn lemma_stack_nonneg(s: Seq<State>)
    ensures
        forall|k: int| 0 <= k < 12 ==> 0 <= #[trigger] stack_tally(s)[k],
    decreases s.len(),
{
    if s.len() > 0 {
        lemma_stack_nonneg(s.drop_last());
        assert forall|k: int| 0 <= k < 12 implies 0 <= #[trigger] stack_tally(s)[k] by {
            assert(0 <= stack_tally(s.drop_last())[k]);
            assert(0 <= metrics_tally(s.last().space.metrics)[k]);
        }
    } else {
        assert forall|k: int| 0 <= k < 12 implies 0 <= #[trigger] stack_tally(s)[k] by {
            assert(stack_tally(s) == tzero());
        }
    }
}

/// The open spaces' token maps are well formed.
spec fn maps_wf(s: Seq<State>) -> bool {
    forall|j: int| 0 <= j < s.len() ==> (#[trigger] s[j]).maps.wf()
}

/// A closed space's derived metrics were computed from its merged state.
pub open spec fn finalized(
    m: CodeMetrics,
    maps: (int, int, int, int),
    chosen: Option<Seq<MetricsList>>,
) -> bool {
    &&& (selected(chosen, MetricsList::Mi) || selected(chosen, MetricsList::Halstead))
        ==> m.halstead.counts() == maps
    &&& selected(chosen, MetricsList::Mi) ==> mi_matches(m)
    &&& averages_match(m)
}

/// Computes the derived metrics of a space whose subtree is exhausted.
fn finalize_state(state: &mut State, chosen: Option<&ChosenMetrics>)
    ensures
        metrics_tally(final(state).space.metrics) == metrics_tally(old(state).space.metrics),
        finalized(final(state).space.metrics, old(state).maps.counts(), chosen_view(chosen)),
        final(state).maps == old(state).maps,
        final(state).depth == old(state).depth,
        final(state).opener == old(state).opener,
        final(state).space.spaces == old(state).space.spaces,
        final(state).space.name == old(state).space.name,
        final(state).space.kind == old(state).space.kind,
        final(state).space.start_line == old(state).space.start_line,
        final(state).space.end_line == old(state).space.end_line,
        !(selected(chosen_view(chosen), MetricsList::Mi) || selected(
            chosen_view(chosen),
            MetricsList::Halstead,
        )) ==> final(state).space.metrics.halstead == old(state).space.metrics.halstead,
        !selected(chosen_view(chosen), MetricsList::Mi) ==> final(state).space.metrics.mi == old(
            state,
        ).space.metrics.mi,
{
    let wants_mi = is_selected(chosen, MetricsList::Mi);
    if wants_mi || is_selected(chosen, MetricsList::Halstead) {
        state.maps.finalize(&mut state.space.metrics.halstead);
    }
    let n = state.space.metrics.nom.total();
    state.space.metrics.nargs.finalize(n);
    state.space.metrics.nexits.finalize(n);
    state.space.metrics.cyclomatic.finalize(n);
    if wants_mi {
        mi::Stats::compute(
            &state.space.metrics.loc,
            &state.space.metrics.cyclomatic,
            &state.space.metrics.halstead,
            &mut state.space.metrics.mi,
        );
    }
}

/// `p_new` is `p_old` with the closed `c_old` merged in: the child, its
/// derived metrics computed from its own merged state, is the parent's new
/// last subspace; the parent's counters gain the child's, its derived
/// metrics are kept, and its token maps gain the child's keys and counts.
spec fn closed_into(p_old: State, c_old: State, p_new: State, chosen: Option<Seq<MetricsList>>) -> bool {
    let c = p_new.space.spaces@.last();
    &&& p_new.space.spaces@.len() == p_old.space.spaces@.len() + 1
    &&& p_new.space.spaces@.drop_last() == p_old.space.spaces@
    &&& c.name == c_old.space.name
    &&& c.kind == c_old.space.kind
    &&& c.start_line == c_old.space.start_line
    &&& c.end_line == c_old.space.end_line
    &&& c.spaces == c_old.space.spaces
    &&& metrics_tally(c.metrics) == metrics_tally(c_old.space.metrics)
    &&& finalized(c.metrics, c_old.maps.counts(), chosen)
    &&& metrics_tally(p_new.space.metrics) == tadd(
        metrics_tally(p_old.space.metrics),
        metrics_tally(c_old.space.metrics),
    )
    &&& derived_part(p_new.space.metrics) == derived_part(p_old.space.metrics)
    &&& p_new.space.name == p_old.space.name
    &&& p_new.space.kind == p_old.space.kind
    &&& p_new.space.start_line == p_old.space.start_line
    &&& p_new.space.end_line == p_old.space.end_line
    &&& p_new.depth == p_old.depth
    &&& p_new.opener == p_old.opener
    &&& p_new.maps.wf()
    &&& keys_of(p_new.maps.operator_entries()).to_set() == keys_of(p_old.maps.operator_entries()).to_set()
        + keys_of(c_old.maps.operator_entries()).to_set()
    &&& keys_of(p_new.maps.operand_entries()).to_set() == keys_of(p_old.maps.operand_entries()).to_set()
        + keys_of(c_old.maps.operand_entries()).to_set()
    &&& exact_total(p_old.maps.operator_entries()) + exact_total(c_old.maps.operator_entries())
        <= usize::MAX ==> exact_total(p_new.maps.operator_entries()) == exact_total(
        p_old.maps.operator_entries(),
    ) + exact_total(c_old.maps.operator_entries())
    &&& exact_total(p_old.maps.operand_entries()) + exact_total(c_old.maps.operand_entries())
        <= usize::MAX ==> exact_total(p_new.maps.operand_entries()) == exact_total(
        p_old.maps.operand_entries(),
    ) + exact_total(c_old.maps.operand_entries())
    &&& forall|x: u16|
        #![trigger p_new.maps.operator_count(x)]
        p_new.maps.operator_count(x) == sat_add(
            p_old.maps.operator_count(x),
            c_old.maps.operator_count(x),
        )
    &&& forall|x: Seq<u8>|
        #![trigger p_new.maps.operand_count(x)]
        p_new.maps.operand_count(x) == sat_add(
            p_old.maps.operand_count(x),
            c_old.maps.operand_count(x),
        )
}

/// Closes the innermost open space: its derived metrics are computed, its
/// token maps and additive metrics merged into its parent's, and it is
/// appended as its parent's last subspace.
fn close_top(states: &mut Vec<State>, chosen: Option<&ChosenMetrics>)
    requires
        old(states)@.len() >= 2,
        maps_wf(old(states)@),
        tfits(stack_tally(old(states)@)),
        all_open_ok(old(states)@, chosen_view(chosen)),
        stack_tokens(old(states)@).0 <= usize::MAX,
        stack_tokens(old(states)@).1 <= usize::MAX,
    ensures
        forall|j: int| 0 <= j < old(states)@.len() - 2 ==> final(states)@[j] == old(states)@[j],
        closed_into(
            old(states)@[old(states)@.len() - 2],
            old(states)@[old(states)@.len() - 1],
            final(states)@[old(states)@.len() - 2],
            chosen_view(chosen),
        ),
        stack_tokens(final(states)@) == stack_tokens(old(states)@),
        stack_keys(final(states)@) == stack_keys(old(states)@),
        final(states)@.len() == old(states)@.len() - 1,
        maps_wf(final(states)@),
        stack_tally(final(states)@) == stack_tally(old(states)@),
        all_open_ok(final(states)@, chosen_view(chosen)),
        stack_flat(final(states)@) == stack_flat(old(states)@),
        forall|j: int|
            0 <= j < final(states)@.len() ==> (#[trigger] final(states)@[j]).depth == old(
                states,
            )@[j].depth,
{
    let ghost s = states@;
    let ghost n = s.len();
    let ghost base = s.drop_last().drop_last();
    let ghost cv = chosen_view(chosen);
    let mut child = states.pop().unwrap();
    let ghost c0 = child;
    finalize_state(&mut child, chosen);
    let mut parent = states.pop().unwrap();
    proof {
        assert(s[n - 1] == c0);
        assert(open_ok(c0, cv));
        let m = c0.space.spaces@.len() as int;
        lemma_same_spaces(c0.space, child.space, m, cv);
        assert(space_ok(child.space, cv));
        assert(flat(child.space) =~= flat(c0.space));
        assert(s.drop_last().last() == parent);
        assert(s[n - 2] == parent);
        lemma_stack_tokens_nonneg(base);
        assert(stack_tokens(s.drop_last()).0 == stack_tokens(base).0 + exact_total(parent.maps.operator_entries()));
        crate::halstead::lemma_exact_total_nonneg(parent.maps.operator_entries());
        crate::halstead::lemma_exact_total_nonneg(parent.maps.operand_entries());
        assert(s[n - 1].maps.wf());
        lemma_stack_nonneg(base);
        assert(stack_tally(s.drop_last()) == tadd(stack_tally(base), metrics_tally(parent.space.metrics)));
        assert(stack_tally(s) == tadd(
            tadd(stack_tally(base), metrics_tally(parent.space.metrics)),
            metrics_tally(s.last().space.metrics),
        ));
        assert forall|k: int| 0 <= k < 12 implies #[trigger] tadd(
            metrics_tally(parent.space.metrics),
            metrics_tally(child.space.metrics),
        )[k] <= usize::MAX by {
            assert(0 <= stack_tally(base)[k]);
            assert(stack_tally(s)[k] <= usize::MAX);
        }
    }
    parent.maps.merge(&child.maps);
    let ghost parent0 = parent.space;
    let ghost cs = child.space;
    parent.space.metrics.merge(&child.space.metrics);
    parent.space.spaces.push(child.space);
    states.push(parent);
    proof {
        let m = parent0.spaces@.len() as int;
        assert(open_ok(s[n - 2], cv));
        assert(parent.space.spaces@.drop_last() =~= parent0.spaces@);
        lemma_push_child(parent0, parent.space, m, cv);
        assert(parent.space.spaces@[m] == cs);
        assert(children_tally(parent.space, m + 1) == tadd(children_tally(parent0, m), metrics_tally(cs.metrics)));
        assert(tle(children_tally(parent.space, m + 1), metrics_tally(parent.space.metrics))) by {
            assert forall|k: int| 0 <= k < 12 implies 0 <= #[trigger] children_tally(parent.space, m + 1)[k]
                <= metrics_tally(parent.space.metrics)[k] by {
                assert(0 <= children_tally(parent0, m)[k] <= metrics_tally(parent0.metrics)[k]);
                assert(0 <= metrics_tally(cs.metrics)[k]);
            }
        }
        assert(open_ok(parent, cv));
        assert(flat(parent.space) =~= flat(parent0) + flat(cs));
        assert(states@.drop_last() =~= base);
        assert(stack_flat(s.drop_last()) == stack_flat(base) + flat(parent0));
        assert(stack_flat(states@) =~= stack_flat(s));
        assert(stack_tokens(states@) == stack_tokens(s));
        assert(stack_keys(s.drop_last()) == (
            stack_keys(base).0 + keys_of(s[n - 2].maps.operator_entries()).to_set(),
            stack_keys(base).1 + keys_of(s[n - 2].maps.operand_entries()).to_set(),
        ));
        assert(stack_keys(states@).0 =~= stack_keys(s).0);
        assert(stack_keys(states@).1 =~= stack_keys(s).1);
        assert forall|j: int| 0 <= j < states@.len() implies open_ok(#[trigger] states@[j], cv) by {
            if j < n - 2 {
                assert(states@[j] == s[j]);
            }
        }
        assert(stack_tally(states@) =~= stack_tally(s));
        assert forall|j: int| 0 <= j < states@.len() implies (#[trigger] states@[j]).maps.wf() by {
            if j < n - 2 {
                assert(states@[j] == s[j]);
            }
        }
        assert forall|j: int| 0 <= j < states@.len() implies (#[trigger] states@[j]).depth
            == s[j].depth by {
            if j < n - 2 {
                assert(states@[j] == s[j]);
            }
        }
    }
}

/// Returns the tree of function spaces of a syntax tree, given as its nodes
/// in document order; the root space is named after `path`. Only the
/// metrics of `chosen_metrics` are computed (all of them when `None`).
///
/// Each node is counted in the innermost space open at that point. A space
/// closes, and is appended to its parent's subspaces, once the walk leaves
/// its subtree; the first space opened closes last and is the root. Returns
/// `None` when no node opens a space.
///
/// The root's additive counters are the sums over all nodes from the first
/// space on, and its token counts are the distinct and total operators and
/// operands met there. Every space's counters are its subspaces' plus a
/// non-negative part of its own, and its averages and maintainability
/// snapshot come from its own merged metrics. Listed in pre-order, the
/// spaces are the space-opening nodes in document order.
///
/// More precisely, the root is the space opened at the first space-opening
/// node and covers every node from there on; any other space opened at node
/// `k` covers `k`'s node range, up to the next node no deeper than `k`. Each
/// space's subspaces are the spaces opened directly in its range, in order,
/// each named after its node; its additive counters, and its token counts
/// when they are computed, are those of its range.
#[verifier::rlimit(100)]
pub fn metrics(nodes: &Vec<Node>, path: &String, chosen_metrics: Option<&ChosenMetrics>) -> (r:
    Option<FuncSpace>)
    requires
        forall|j: int| 0 <= j < nodes@.len() ==> node_fits(#[trigger] nodes@[j]),
        tfits(node_total(nodes@, nodes@.len() as int)),
        token_total(nodes@, nodes@.len() as int).0 <= usize::MAX,
        token_total(nodes@, nodes@.len() as int).1 <= usize::MAX,
    ensures
        r.is_none() == !opened_upto(nodes@, nodes@.len() as int),
        r matches Some(root) ==> {
            &&& root.name matches Some(name) && name@ == path@
            &&& metrics_tally(root.metrics) == attributed(
                nodes@,
                chosen_view(chosen_metrics),
                nodes@.len() as int,
            )
            &&& space_ok(root, chosen_view(chosen_metrics))
            &&& flat(root) == opening_headers(nodes@, nodes@.len() as int)
            &&& space_from(root, nodes@, chosen_view(chosen_metrics), first_from(nodes@, 0))
            &&& (selected(chosen_view(chosen_metrics), MetricsList::Mi) || selected(
                chosen_view(chosen_metrics),
                MetricsList::Halstead,
            )) ==> {
                &&& root.metrics.halstead.counts().0 == tokens_met(
                    nodes@,
                    true,
                    nodes@.len() as int,
                ).0.len()
                &&& root.metrics.halstead.counts().2 == tokens_met(
                    nodes@,
                    true,
                    nodes@.len() as int,
                ).1.len()
                &&& root.metrics.halstead.counts().1 == attributed_tokens(
                    nodes@,
                    true,
                    nodes@.len() as int,
                ).0
                &&& root.metrics.halstead.counts().3 == attributed_tokens(
                    nodes@,
                    true,
                    nodes@.len() as int,
                ).1
            }
        },
{
    let ghost cv = chosen_view(chosen_metrics);
    let ghost len = nodes@.len() as int;
    let wants_halstead = is_selected(chosen_metrics, MetricsList::Mi) || is_selected(
        chosen_metrics,
        MetricsList::Halstead,
    );
    let mut states: Vec<State> = Vec::new();
    proof {
        reveal(stack_shape);
    }
    let mut i: usize = 0;
    while i < nodes.len()
        invariant
            0 <= i <= len,
            len == nodes@.len(),
            cv == chosen_view(chosen_metrics),
            wants_halstead == (selected(cv, MetricsList::Mi) || selected(cv, MetricsList::Halstead)),
            forall|j: int| 0 <= j < nodes@.len() ==> node_fits(#[trigger] nodes@[j]),
            tfits(node_total(nodes@, len)),
            (states@.len() > 0) == opened_upto(nodes@, i as int),
            stack_tally(states@) == attributed(nodes@, cv, i as int),
            maps_wf(states@),
            all_open_ok(states@, cv),
            stack_flat(states@) == opening_headers(nodes@, i as int),
            token_total(nodes@, len).0 <= usize::MAX,
            token_total(nodes@, len).1 <= usize::MAX,
            stack_tokens(states@) == attributed_tokens(nodes@, wants_halstead, i as int),
            stack_keys(states@) == tokens_met(nodes@, wants_halstead, i as int),
            stack_shape(states@, nodes@, cv, i as int),
        decreases len - i,
    {
        let node = &nodes[i];
        proof {
            lemma_attributed_bounded(nodes@, cv, i as int);
            lemma_total_monotone(nodes@, i as int, len);
            lemma_tokens_bounded(nodes@, wants_halstead, i as int, len);
        }
        while states.len() > 1 && states[states.len() - 1].depth >= node.depth
            invariant
                (states@.len() > 0) == opened_upto(nodes@, i as int),
                stack_tally(states@) == attributed(nodes@, cv, i as int),
                tle(attributed(nodes@, cv, i as int), node_total(nodes@, i as int)),
                tle(node_total(nodes@, i as int), node_total(nodes@, len)),
                tfits(node_total(nodes@, len)),
                maps_wf(states@),
                cv == chosen_view(chosen_metrics),
                all_open_ok(states@, cv),
                stack_flat(states@) == opening_headers(nodes@, i as int),
                stack_tokens(states@) == attributed_tokens(nodes@, wants_halstead, i as int),
                stack_keys(states@) == tokens_met(nodes@, wants_halstead, i as int),
                stack_shape(states@, nodes@, cv, i as int),
                0 <= i < len,
                len == nodes@.len(),
                node == nodes@[i as int],
                token_total(nodes@, len).0 <= usize::MAX,
                token_total(nodes@, len).1 <= usize::MAX,
                attributed_tokens(nodes@, wants_halstead, i as int).0 <= usize::MAX,
                attributed_tokens(nodes@, wants_halstead, i as int).1 <= usize::MAX,
            decreases states@.len(),
        {
            proof {
                assert forall|k: int| 0 <= k < 12 implies #[trigger] stack_tally(states@)[k]
                    <= usize::MAX by {
                    assert(attributed(nodes@, cv, i as int)[k] <= node_total(nodes@, i as int)[k]);
                    assert(node_total(nodes@, i as int)[k] <= node_total(nodes@, len)[k]);
                }
            }
            let ghost before_close = states@;
            close_top(&mut states, chosen_metrics);
            proof {
                lemma_close_shape(before_close, states@, nodes@, cv, i as int);
            }
        }
        let ghost before = states@;
        if node.opens_space {
            let ghost s0 = states@;
            states.push(
                State { space: FuncSpace::new(node), maps: HalsteadMaps::new(), depth: node.depth, opener: i },
            );
            proof {
                let ns = states@.last().space;
                assert(states@.drop_last() =~= s0);
                assert(stack_tally(states@) =~= stack_tally(s0));
                assert(stack_tokens(states@) == stack_tokens(s0));
                assert(keys_of(states@.last().maps.operator_entries()).to_set() =~= Set::<u16>::empty());
                assert(keys_of(states@.last().maps.operand_entries()).to_set() =~= Set::<Seq<u8>>::empty());
                assert(stack_keys(states@).0 =~= stack_keys(s0).0);
                assert(stack_keys(states@).1 =~= stack_keys(s0).1);
                assert(children_tally(ns, 0) == tzero());
                assert(tle(tzero(), tzero()));
                assert(open_ok(states@.last(), cv));
                assert forall|j: int| 0 <= j < states@.len() implies open_ok(#[trigger] states@[j], cv) by {
                    if j < s0.len() {
                        assert(states@[j] == s0[j]);
                    }
                }
                assert(flat(ns) =~= seq![header(ns)]);
                assert(stack_flat(states@) =~= opening_headers(nodes@, i + 1));
                assert(states@.last().opener == i);
                assert(states@.last().depth == nodes@[i as int].depth);
                assert(header(ns) == node_header(nodes@, i as int));
                assert(ns.name == nodes@[i as int].name);
                assert(ns.spaces@.len() == 0);
                assert(metrics_tally(ns.metrics) == tzero());
                assert(states@.drop_last() == before);
                assert forall|j: int| 0 <= j < states@.len() implies (#[trigger] states@[j]).maps.wf() by {
                    if j < s0.len() {
                        assert(states@[j] == s0[j]);
                    }
                }
            }
        }
        proof {
            if !node.opens_space {
                assert(opening_headers(nodes@, i + 1) == opening_headers(nodes@, i as int));
            }
            assert(opened_upto(nodes@, i + 1) == (states@.len() > 0));
            lemma_attributed_bounded(nodes@, cv, i + 1);
            lemma_total_monotone(nodes@, i + 1, len);
            lemma_tokens_bounded(nodes@, wants_halstead, i + 1, len);
        }
        if states.len() > 0 {
            let ghost s1 = states@;
            let ghost rest = s1.drop_last();
            let mut top = states.pop().unwrap();
            let ghost t0 = top;
            proof {
                assert(states@ == rest);
                lemma_stack_nonneg(rest);
                let m = masked(node_tally(node.counts), cv);
                assert(attributed(nodes@, cv, i + 1) == tadd(stack_tally(s1), m));
                assert forall|k: int| 0 <= k < 12 implies #[trigger] tadd(
                    metrics_tally(top.space.metrics),
                    m,
                )[k] <= usize::MAX by {
                    assert(0 <= stack_tally(rest)[k]);
                    assert(attributed(nodes@, cv, i + 1)[k] <= node_total(nodes@, i + 1)[k]);
                    assert(node_total(nodes@, i + 1)[k] <= node_total(nodes@, len)[k]);
                }
                assert(top.maps.wf());
                lemma_stack_tokens_nonneg(rest);
            }
            let ghost a0 = exact_total(top.maps.operator_entries());
            let ghost b0 = exact_total(top.maps.operand_entries());
            let ghost ka = keys_of(top.maps.operator_entries()).to_set();
            let ghost kb = keys_of(top.maps.operand_entries()).to_set();
            proof {
                assert(node.operators@.take(0).to_set() =~= Set::<u16>::empty());
                assert(operand_texts(*node).take(0).to_set() =~= Set::<Seq<u8>>::empty());
                assert(ka =~= ka + node.operators@.take(0).to_set());
                assert(kb =~= kb + operand_texts(*node).take(0).to_set());
            }
            top.space.metrics.add_node(&node.counts, chosen_metrics);
            if wants_halstead {
                let ghost sp = top.space;
                let mut j: usize = 0;
                while j < node.operators.len()
                    invariant
                        top.maps.wf(),
                        top.space == sp,
                        top.opener == t0.opener,
                        top.depth == t0.depth,
                        0 <= j <= node.operators@.len(),
                        a0 + node.operators@.len() <= usize::MAX,
                        exact_total(top.maps.operator_entries()) == a0 + j,
                        exact_total(top.maps.operand_entries()) == b0,
                        keys_of(top.maps.operator_entries()).to_set() == ka + node.operators@.take(
                            j as int,
                        ).to_set(),
                        keys_of(top.maps.operand_entries()).to_set() == kb,
                    decreases node.operators@.len() - j,
                {
                    top.maps.add_operator(node.operators[j], 1);
                    proof {
                        assert(node.operators@.take(j + 1) =~= node.operators@.take(j as int).push(
                            node.operators@[j as int],
                        ));
                        lemma_push_key_set(node.operators@.take(j as int), node.operators@[j as int]);
                        assert(keys_of(top.maps.operator_entries()).to_set() =~= ka
                            + node.operators@.take(j + 1).to_set());
                    }
                    j = j + 1;
                }
                assert(node.operators@.take(j as int) =~= node.operators@);
                let mut j: usize = 0;
                while j < node.operands.len()
                    invariant
                        top.maps.wf(),
                        top.space == sp,
                        top.opener == t0.opener,
                        top.depth == t0.depth,
                        0 <= j <= node.operands@.len(),
                        b0 + node.operands@.len() <= usize::MAX,
                        exact_total(top.maps.operator_entries()) == a0 + node.operators@.len(),
                        exact_total(top.maps.operand_entries()) == b0 + j,
                        keys_of(top.maps.operator_entries()).to_set() == ka
                            + node.operators@.to_set(),
                        keys_of(top.maps.operand_entries()).to_set() == kb + operand_texts(
                            *node,
                        ).take(j as int).to_set(),
                    decreases node.operands@.len() - j,
                {
                    top.maps.add_operand(&node.operands[j], 1);
                    proof {
                        let t = operand_texts(*node);
                        assert(t[j as int] == node.operands@[j as int]@);
                        assert(t.take(j + 1) =~= t.take(j as int).push(t[j as int]));
                        lemma_push_key_set(t.take(j as int), t[j as int]);
                        assert(keys_of(top.maps.operand_entries()).to_set() =~= kb + t.take(
                            j + 1,
                        ).to_set());
                    }
                    j = j + 1;
                }
                assert(operand_texts(*node).take(j as int) =~= operand_texts(*node));
            }
            states.push(top);
            proof {
                let m = t0.space.spaces@.len() as int;
                assert(open_ok(s1[s1.len() - 1], cv));
                lemma_same_spaces(t0.space, top.space, m, cv);
                assert(open_ok(top, cv)) by {
                    let mt = masked(node_tally(node.counts), cv);
                    assert forall|k: int| 0 <= k < 12 implies 0 <= #[trigger] children_tally(top.space, m)[k]
                        <= metrics_tally(top.space.metrics)[k] by {
                        assert(0 <= children_tally(t0.space, m)[k] <= metrics_tally(t0.space.metrics)[k]);
                        assert(0 <= mt[k]);
                    }
                }
                assert(flat(top.space) =~= flat(t0.space));
                assert forall|j: int| 0 <= j < states@.len() implies open_ok(#[trigger] states@[j], cv) by {
                    if j < rest.len() {
                        assert(states@[j] == s1[j]);
                    }
                }
                assert(states@.drop_last() =~= rest);
                assert(states@.last() == top);
                if node.opens_space {
                    assert(rest == before);
                    assert(t0 == s1.last());
                    assert(s1.last().opener == i);
                    assert(top.opener == i);
                    assert(top.depth == nodes@[i as int].depth);
                    assert(header(top.space) == node_header(nodes@, i as int));
                    assert(top.space.name == nodes@[i as int].name);
                    assert(top.space.spaces@.len() == 0);
                    assert(metrics_tally(t0.space.metrics) == tzero());
                    assert(metrics_tally(top.space.metrics) == tadd(
                        tzero(),
                        masked(node_tally(nodes@[i as int].counts), cv),
                    ));
                } else {
                    assert(s1 == before);
                }
                assert(stack_flat(states@) =~= stack_flat(s1));
                assert(stack_tokens(states@) == attributed_tokens(nodes@, wants_halstead, i + 1));
                assert(stack_tally(states@) =~= attributed(nodes@, cv, i + 1));
                assert forall|j: int| 0 <= j < states@.len() implies (#[trigger] states@[j]).maps.wf() by {
                    if j < rest.len() {
                        assert(states@[j] == s1[j]);
                    }
                }
            }
        } else {
            proof {
                assert(stack_tally(states@) =~= attributed(nodes@, cv, i + 1));
                assert(stack_tokens(states@) == attributed_tokens(nodes@, wants_halstead, i + 1));
                assert(stack_keys(states@) == tokens_met(nodes@, wants_halstead, i + 1));
            }
        }
        proof {
            if node.opens_space {
                assert(forall|j: int| 0 <= j < before.len() ==> states@[j] == before[j]);
            }
            lemma_step_shape(before, states@, nodes@, cv, i as int);
        }
        i = i + 1;
    }
    proof {
        lemma_attributed_bounded(nodes@, cv, len);
        lemma_tokens_bounded(nodes@, wants_halstead, len, len);
    }
    while states.len() > 1
        invariant
            (states@.len() > 0) == opened_upto(nodes@, len),
            stack_tally(states@) == attributed(nodes@, cv, len),
            tle(attributed(nodes@, cv, len), node_total(nodes@, len)),
            tfits(node_total(nodes@, len)),
            maps_wf(states@),
            cv == chosen_view(chosen_metrics),
            all_open_ok(states@, cv),
            stack_flat(states@) == opening_headers(nodes@, len),
            stack_tokens(states@) == attributed_tokens(nodes@, wants_halstead, len),
            stack_keys(states@) == tokens_met(nodes@, wants_halstead, len),
            stack_shape(states@, nodes@, cv, len),
            len == nodes@.len(),
            token_total(nodes@, len).0 <= usize::MAX,
            token_total(nodes@, len).1 <= usize::MAX,
            attributed_tokens(nodes@, wants_halstead, len).0 <= usize::MAX,
            attributed_tokens(nodes@, wants_halstead, len).1 <= usize::MAX,
        decreases states@.len(),
    {
        proof {
            assert forall|k: int| 0 <= k < 12 implies #[trigger] stack_tally(states@)[k]
                <= usize::MAX by {
                assert(attributed(nodes@, cv, len)[k] <= node_total(nodes@, len)[k]);
            }
        }
        let ghost before_close = states@;
        close_top(&mut states, chosen_metrics);
        proof {
            lemma_close_shape(before_close, states@, nodes@, cv, len);
        }
    }
    if states.len() == 0 {
        return None;
    }
    let ghost s = states@;
    let mut root = states.pop().unwrap();
    proof {
        assert(s.drop_last() =~= Seq::<State>::empty());
        assert(stack_tally(s.drop_last()) == tzero());
        assert(s.last() == root);
        assert(stack_tally(s) =~= metrics_tally(root.space.metrics));
        assert(stack_flat(s.drop_last()) =~= Seq::empty());
        assert(stack_flat(s) =~= flat(root.space));
        assert(open_ok(s[0], cv));
        assert(stack_tokens(s.drop_last()) == (0int, 0int));
        assert(stack_keys(s.drop_last()) == (Set::<u16>::empty(), Set::<Seq<u8>>::empty()));
        assert(stack_keys(s).0 =~= keys_of(root.maps.operator_entries()).to_set());
        assert(stack_keys(s).1 =~= keys_of(root.maps.operand_entries()).to_set());
        crate::halstead::lemma_entries_count_keys(root.maps.operator_entries());
        crate::halstead::lemma_entries_count_keys(root.maps.operand_entries());
        if wants_halstead {
            crate::halstead::lemma_sat_total_exact(root.maps.operator_entries());
            crate::halstead::lemma_sat_total_exact(root.maps.operand_entries());
        }
    }
    let ghost r0 = root.space;
    finalize_state(&mut root, chosen_metrics);
    root.space.name = Some(path.clone());
    proof {
        let m = r0.spaces@.len() as int;
        lemma_same_spaces(r0, root.space, m, cv);
        assert(flat(root.space) =~= flat(r0));
        lemma_root_from(s, root.space, nodes@, cv);
        assert(space_ok(root.space, cv));
    }
    Some(root.space)
}

/// The kind and line span of a space.
pub open spec fn header(s: FuncSpace) -> (SpaceKind, int, int) {
    (s.kind, s.start_line as int, s.end_line as int)
}

/// The headers of a space and of all its subspaces, in document order.
pub open spec fn flat(s: FuncSpace) -> Seq<(SpaceKind, int, int)>
    decreases s, 1int, 0int,
{
    seq![header(s)] + flat_list(s, s.spaces@.len() as int)
}

/// The headers of the first `n` subspaces of `s` and of theirs.
pub open spec fn flat_list(s: FuncSpace, n: int) -> Seq<(SpaceKind, int, int)>
    decreases s, 0int, n,
{
    if n <= 0 || n > s.spaces@.len() {
        Seq::empty()
    } else {
        flat_list(s, n - 1) + flat(s.spaces@[n - 1])
    }
}

/// The additive counters of the first `n` subspaces of `s`, summed.
pub open spec fn children_tally(s: FuncSpace, n: int) -> Seq<int>
    decreases n,
{
    if n <= 0 || n > s.spaces@.len() {
        tzero()
    } else {
        tadd(children_tally(s, n - 1), metrics_tally(s.spaces@[n - 1].metrics))
    }
}

/// A closed space: its additive counters are its subspaces' plus a
/// non-negative contribution of its own; its averages and, when selected,
/// its maintainability snapshot were computed from its own merged metrics;
/// and so for every subspace.
pub open spec fn space_ok(s: FuncSpace, chosen: Option<Seq<MetricsList>>) -> bool
    decreases s, 1int, 0int,
{
    &&& tle(children_tally(s, s.spaces@.len() as int), metrics_tally(s.metrics))
    &&& selected(chosen, MetricsList::Mi) ==> mi_matches(s.metrics)
    &&& averages_match(s.metrics)
    &&& children_ok(s, s.spaces@.len() as int, chosen)
}

/// The first `n` subspaces of `s` are closed spaces.
pub open spec fn children_ok(s: FuncSpace, n: int, chosen: Option<Seq<MetricsList>>) -> bool
    decreases s, 0int, n,
{
    if n <= 0 || n > s.spaces@.len() {
        true
    } else {
        children_ok(s, n - 1, chosen) && space_ok(s.spaces@[n - 1], chosen)
    }
}

/// Two spaces with the same subspaces agree on everything computed from them.
proof fn lemma_same_spaces(a: FuncSpace, b: FuncSpace, n: int, chosen: Option<Seq<MetricsList>>)
    requires
        a.spaces@ == b.spaces@,
    ensures
        flat_list(a, n) == flat_list(b, n),
        children_tally(a, n) == children_tally(b, n),
        children_ok(a, n, chosen) == children_ok(b, n, chosen),
    decreases n,
{
    if n > 0 {
        lemma_same_spaces(a, b, n - 1, chosen);
    }
}

/// Appending a subspace keeps what was computed from the earlier ones.
proof fn lemma_push_child(a: FuncSpace, b: FuncSpace, n: int, chosen: Option<Seq<MetricsList>>)
    requires
        b.spaces@.len() == a.spaces@.len() + 1,
        b.spaces@.drop_last() == a.spaces@,
        0 <= n <= a.spaces@.len(),
    ensures
        flat_list(a, n) == flat_list(b, n),
        children_tally(a, n) == children_tally(b, n),
        children_ok(a, n, chosen) == children_ok(b, n, chosen),
    decreases n,
{
    if n > 0 {
        lemma_push_child(a, b, n - 1, chosen);
        assert(b.spaces@[n - 1] == a.spaces@[n - 1]);
    }
}

/// The kind and line span of each node that opens a space, among the first
/// `i`, in document order.
pub open spec fn opening_headers(nodes: Seq<Node>, i: int) -> Seq<(SpaceKind, int, int)>
    decreases i,
{
    if i <= 0 {
        Seq::empty()
    } else if nodes[i - 1].opens_space {
        opening_headers(nodes, i - 1).push(
            (nodes[i - 1].kind, span_of(nodes[i - 1]).0, span_of(nodes[i - 1]).1),
        )
    } else {
        opening_headers(nodes, i - 1)
    }
}

/// The headers of all open spaces and of their closed subspaces.
spec fn stack_flat(s: Seq<State>) -> Seq<(SpaceKind, int, int)>
    decreases s.len(),
{
    if s.len() == 0 {
        Seq::empty()
    } else {
        stack_flat(s.drop_last()) + flat(s.last().space)
    }
}

/// An open space whose closed subspaces are closed spaces.
spec fn open_ok(st: State, chosen: Option<Seq<MetricsList>>) -> bool {
    let sp = st.space;
    &&& tle(children_tally(sp, sp.spaces@.len() as int), metrics_tally(sp.metrics))
    &&& children_ok(sp, sp.spaces@.len() as int, chosen)
}

spec fn all_open_ok(s: Seq<State>, chosen: Option<Seq<MetricsList>>) -> bool {
    forall|j: int| 0 <= j < s.len() ==> open_ok(#[trigger] s[j], chosen)
}

/// Operator and operand occurrences met at the first `i` nodes, from the
/// first node that opens a space on; none when tokens are not `counted`.
pub open spec fn attributed_tokens(nodes: Seq<Node>, counted: bool, i: int) -> (int, int)
    decreases i,
{
    if i <= 0 {
        (0, 0)
    } else if opened_upto(nodes, i) && counted {
        let p = attributed_tokens(nodes, counted, i - 1);
        (p.0 + nodes[i - 1].operators@.len(), p.1 + nodes[i - 1].operands@.len())
    } else {
        attributed_tokens(nodes, counted, i - 1)
    }
}

/// Operator and operand occurrences over the first `i` nodes.
pub open spec fn token_total(nodes: Seq<Node>, i: int) -> (int, int)
    decreases i,
{
    if i <= 0 {
        (0, 0)
    } else {
        let p = token_total(nodes, i - 1);
        (p.0 + nodes[i - 1].operators@.len(), p.1 + nodes[i - 1].operands@.len())
    }
}

proof fn lemma_tokens_bounded(nodes: Seq<Node>, counted: bool, i: int, j: int)
    requires
        0 <= i <= j <= nodes.len(),
    ensures
        0 <= attributed_tokens(nodes, counted, i).0 <= token_total(nodes, j).0,
        0 <= attributed_tokens(nodes, counted, i).1 <= token_total(nodes, j).1,
    decreases j,
{
    if i < j {
        lemma_tokens_bounded(nodes, counted, i, j - 1);
    } else if i > 0 {
        lemma_tokens_bounded(nodes, counted, i - 1, j - 1);
    }
}

/// Operator and operand occurrences held by the open spaces' maps.
spec fn stack_tokens(s: Seq<State>) -> (int, int)
    decreases s.len(),
{
    if s.len() == 0 {
        (0, 0)
    } else {
        let p = stack_tokens(s.drop_last());
        (
            p.0 + exact_total(s.last().maps.operator_entries()),
            p.1 + exact_total(s.last().maps.operand_entries()),
        )
    }
}

proof fn lemma_stack_tokens_nonneg(s: Seq<State>)
    ensures
        0 <= stack_tokens(s).0,
        0 <= stack_tokens(s).1,
    decreases s.len(),
{
    if s.len() > 0 {
        lemma_stack_tokens_nonneg(s.drop_last());
        crate::halstead::lemma_exact_total_nonneg(s.last().maps.operator_entries());
        crate::halstead::lemma_exact_total_nonneg(s.last().maps.operand_entries());
    }
}

/// The operand texts of a node.
pub open spec fn operand_texts(n: Node) -> Seq<Seq<u8>> {
    n.operands@.map_values(|v: Vec<u8>| v@)
}

/// The distinct operators and operand texts met at the first `i` nodes, from
/// the first node that opens a space on; none when tokens are not `counted`.
pub open spec fn tokens_met(nodes: Seq<Node>, counted: bool, i: int) -> (Set<u16>, Set<Seq<u8>>)
    decreases i,
{
    if i <= 0 {
        (Set::empty(), Set::empty())
    } else if opened_upto(nodes, i) && counted {
        let p = tokens_met(nodes, counted, i - 1);
        (p.0 + nodes[i - 1].operators@.to_set(), p.1 + operand_texts(nodes[i - 1]).to_set())
    } else {
        tokens_met(nodes, counted, i - 1)
    }
}

/// The keys held by the open spaces' maps.
spec fn stack_keys(s: Seq<State>) -> (Set<u16>, Set<Seq<u8>>)
    decreases s.len(),
{
    if s.len() == 0 {
        (Set::empty(), Set::empty())
    } else {
        let p = stack_keys(s.drop_last());
        (
            p.0 + keys_of(s.last().maps.operator_entries()).to_set(),
            p.1 + keys_of(s.last().maps.operand_entries()).to_set(),
        )
    }
}

/// A space with no function and no closure has its argument, exit-point and
/// decision-point averages taken over zero, which makes them zero.
pub proof fn lemma_zero_functions_zero_averages(m: CodeMetrics)
    requires
        averages_match(m),
        m.nom.fn_sum() == 0,
        m.nom.closure_sum() == 0,
    ensures
        m.nargs.space_functions() == 0,
        m.nexits.space_functions() == 0,
        m.cyclomatic.space_functions() == 0,
{
}

/// Merging a child's metrics into a parent's adds every additive counter
/// and leaves the parent's token metric and maintainability snapshot as
/// they were: the latter are never summed over children.
pub proof fn lemma_merge_keeps_derived(parent: CodeMetrics, child: CodeMetrics, merged: CodeMetrics)
    requires
        metrics_tally(merged) == tadd(metrics_tally(parent), metrics_tally(child)),
        derived_part(merged) == derived_part(parent),
    ensures
        merged.mi.spec_sloc() == parent.mi.spec_sloc(),
        merged.mi.spec_cloc() == parent.mi.spec_cloc(),
        merged.mi.spec_cyclomatic() == parent.mi.spec_cyclomatic(),
        merged.mi.spec_halstead() == parent.mi.spec_halstead(),
        merged.halstead.counts() == parent.halstead.counts(),
        forall|k: int| 0 <= k < 12 ==> #[trigger] metrics_tally(merged)[k] == metrics_tally(parent)[k]
            + metrics_tally(child)[k],
{
}

/// The kind and line span of the space node `k` opens.
pub open spec fn node_header(nodes: Seq<Node>, k: int) -> (SpaceKind, int, int) {
    (nodes[k].kind, span_of(nodes[k]).0, span_of(nodes[k]).1)
}

/// `s` is the space opened at node `k`: its kind and span are node `k`'s,
/// its additive counters are those of `k`'s node range, and its subspaces
/// are the spaces opened directly in that range, in document order, each
/// named after its node and built the same way.
pub open spec fn space_from(
    s: FuncSpace,
    nodes: Seq<Node>,
    chosen: Option<Seq<MetricsList>>,
    k: int,
) -> bool
    decreases s, 1int, 0int,
{
    let e = scope_end(nodes, k);
    let cs = child_starts(nodes, k + 1, e);
    &&& 0 <= k < nodes.len()
    &&& header(s) == node_header(nodes, k)
    &&& metrics_tally(s.metrics) == range_sum(nodes, chosen, k, e)
    &&& counts_tokens(chosen) ==> s.metrics.halstead.counts() == range_counts(nodes, k, e)
    &&& s.spaces@.len() == cs.len()
    &&& children_from(s, nodes, chosen, cs, s.spaces@.len() as int)
}

/// The first `m` subspaces of `s` are the spaces opened at `cs`.
pub open spec fn children_from(
    s: FuncSpace,
    nodes: Seq<Node>,
    chosen: Option<Seq<MetricsList>>,
    cs: Seq<int>,
    m: int,
) -> bool
    decreases s, 0int, m,
{
    if m <= 0 || m > s.spaces@.len() {
        true
    } else {
        &&& children_from(s, nodes, chosen, cs, m - 1)
        &&& s.spaces@[m - 1].name == nodes[cs[m - 1]].name
        &&& space_from(s.spaces@[m - 1], nodes, chosen, cs[m - 1])
    }
}

proof fn lemma_children_prefix(
    a: FuncSpace,
    b: FuncSpace,
    nodes: Seq<Node>,
    chosen: Option<Seq<MetricsList>>,
    ca: Seq<int>,
    cb: Seq<int>,
    m: int,
)
    requires
        0 <= m <= a.spaces@.len(),
        m <= b.spaces@.len(),
        m <= ca.len(),
        m <= cb.len(),
        a.spaces@.take(m) == b.spaces@.take(m),
        ca.take(m) == cb.take(m),
    ensures
        children_from(a, nodes, chosen, ca, m) == children_from(b, nodes, chosen, cb, m),
    decreases m,
{
    if m > 0 {
        assert(a.spaces@.take(m - 1) =~= a.spaces@.take(m).take(m - 1));
        assert(b.spaces@.take(m - 1) =~= b.spaces@.take(m).take(m - 1));
        assert(ca.take(m - 1) =~= ca.take(m).take(m - 1));
        assert(cb.take(m - 1) =~= cb.take(m).take(m - 1));
        lemma_children_prefix(a, b, nodes, chosen, ca, cb, m - 1);
        assert(a.spaces@[m - 1] == a.spaces@.take(m)[m - 1]);
        assert(b.spaces@[m - 1] == b.spaces@.take(m)[m - 1]);
        assert(ca[m - 1] == ca.take(m)[m - 1]);
        assert(cb[m - 1] == cb.take(m)[m - 1]);
    }
}

/// An open space, opened at its `opener`, whose subtree has been walked up
/// to node `f` (excluded).
#[verifier::opaque]
spec fn open_from(st: State, nodes: Seq<Node>, chosen: Option<Seq<MetricsList>>, f: int) -> bool {
    let k = st.opener as int;
    let cs = child_starts(nodes, k + 1, f);
    &&& 0 <= k < f <= nodes.len()
    &&& nodes[k].opens_space
    &&& st.depth == nodes[k].depth
    &&& header(st.space) == node_header(nodes, k)
    &&& st.space.name == nodes[k].name
    &&& metrics_tally(st.space.metrics) == range_sum(nodes, chosen, k, f)
    &&& reaches(nodes, k + 1, f)
    &&& st.space.spaces@.len() == cs.len()
    &&& children_from(st.space, nodes, chosen, cs, st.space.spaces@.len() as int)
    &&& counts_tokens(chosen) ==> maps_from(st, nodes, k, f)
}

/// Where the walk of open space `j` stopped: at the next open space, or at `i`.
spec fn frontier(s: Seq<State>, j: int, i: int) -> int {
    if j + 1 < s.len() {
        s[j + 1].opener as int
    } else {
        i
    }
}

/// The open spaces after the first `i` nodes: each built from its opener so
/// far; the bottom one is the first space opened; the others' ranges have
/// not ended.
#[verifier::opaque]
spec fn stack_shape(s: Seq<State>, nodes: Seq<Node>, chosen: Option<Seq<MetricsList>>, i: int) -> bool {
    &&& forall|j: int| 0 <= j < s.len() ==> open_from(#[trigger] s[j], nodes, chosen, frontier(s, j, i))
    &&& s.len() > 0 ==> s[0].opener == first_from(nodes, 0)
    &&& forall|j: int| 1 <= j < s.len() ==> s[0].opener < (#[trigger] s[j]).opener
    &&& forall|j: int, m: int|
        #![trigger s[j], nodes[m]]
        1 <= j < s.len() && s[j].opener < m < i ==> nodes[m].depth > nodes[s[j].opener as int].depth
}

proof fn lemma_closed_child(t: State, c: FuncSpace, nodes: Seq<Node>, chosen: Option<Seq<MetricsList>>, i: int)
    requires
        open_from(t, nodes, chosen, i),
        scope_end(nodes, t.opener as int) == i,
        c.spaces == t.space.spaces,
        header(c) == header(t.space),
        metrics_tally(c.metrics) == metrics_tally(t.space.metrics),
        finalized(c.metrics, t.maps.counts(), chosen),
        token_total(nodes, nodes.len() as int).0 <= usize::MAX,
        token_total(nodes, nodes.len() as int).1 <= usize::MAX,
    ensures
        space_from(c, nodes, chosen, t.opener as int),
{
    reveal(open_from);
    let kt = t.opener as int;
    if counts_tokens(chosen) {
        lemma_counts_from(t, c.metrics, nodes, chosen, kt, i);
    }
    let cst = child_starts(nodes, kt + 1, i);
    assert(c.spaces@.take(cst.len() as int) == t.space.spaces@.take(cst.len() as int));
    lemma_children_prefix(c, t.space, nodes, chosen, cst, cst, cst.len() as int);
}

proof fn lemma_closed_parent(
    p: State,
    pn: State,
    t: State,
    nodes: Seq<Node>,
    chosen: Option<Seq<MetricsList>>,
    i: int,
)
    requires
        open_from(p, nodes, chosen, t.opener as int),
        open_from(t, nodes, chosen, i),
        scope_end(nodes, t.opener as int) == i,
        closed_into(p, t, pn, chosen),
        token_total(nodes, nodes.len() as int).0 <= usize::MAX,
        token_total(nodes, nodes.len() as int).1 <= usize::MAX,
    ensures
        open_from(pn, nodes, chosen, i),
{
    reveal(open_from);
    if counts_tokens(chosen) {
        let kp0 = p.opener as int;
        let kt0 = t.opener as int;
        lemma_range_keys_split(nodes, kp0, kt0, i);
        lemma_token_total_monotone(nodes, kp0, kt0);
        lemma_token_total_monotone(nodes, kt0, i);
        lemma_token_total_monotone(nodes, i, nodes.len() as int);
        assert(range_keys(nodes, kp0, i).0 =~= range_keys(nodes, kp0, kt0).0 + range_keys(nodes, kt0, i).0);
        assert(maps_from(pn, nodes, kp0, i));
    }
    let kt = t.opener as int;
    let kp = p.opener as int;
    let c = pn.space.spaces@.last();
    assert(step(nodes, kt) == i);
    lemma_closed_child(t, c, nodes, chosen, i);
    let csp = child_starts(nodes, kp + 1, kt);
    let csn = child_starts(nodes, kp + 1, i);
    lemma_child_starts_split(nodes, kp + 1, kt, i);
    assert(child_starts(nodes, kt, i) == seq![kt]);
    assert(csn =~= csp.push(kt));
    lemma_reaches_step(nodes, kp + 1, kt);
    lemma_range_split(nodes, chosen, kp, kt, i);
    let m = csp.len() as int;
    assert(pn.space.spaces@.take(m) =~= p.space.spaces@.take(m));
    assert(csn.take(m) =~= csp.take(m));
    lemma_children_prefix(pn.space, p.space, nodes, chosen, csn, csp, m);
    assert(pn.space.spaces@[m] == c);
    assert(csn[m] == kt);
    assert(children_from(pn.space, nodes, chosen, csn, m + 1));
}

proof fn lemma_close_shape(
    old_s: Seq<State>,
    new_s: Seq<State>,
    nodes: Seq<Node>,
    chosen: Option<Seq<MetricsList>>,
    i: int,
)
    requires
        old_s.len() >= 2,
        i <= nodes.len(),
        stack_shape(old_s, nodes, chosen, i),
        i == nodes.len() || nodes[i].depth <= old_s.last().depth,
        new_s.len() == old_s.len() - 1,
        forall|j: int| 0 <= j < old_s.len() - 2 ==> new_s[j] == old_s[j],
        closed_into(old_s[old_s.len() - 2], old_s[old_s.len() - 1], new_s[old_s.len() - 2], chosen),
        token_total(nodes, nodes.len() as int).0 <= usize::MAX,
        token_total(nodes, nodes.len() as int).1 <= usize::MAX,
    ensures
        stack_shape(new_s, nodes, chosen, i),
{
    reveal(stack_shape);
    let n = old_s.len();
    let t = old_s[n - 1];
    let p = old_s[n - 2];
    let kt = t.opener as int;
    assert(open_from(t, nodes, chosen, frontier(old_s, n - 1, i)));
    assert(open_from(p, nodes, chosen, frontier(old_s, n - 2, i)));
    assert(old_s[0].opener < t.opener);
    assert(0 <= kt < i && t.depth == nodes[kt].depth) by {
        reveal(open_from);
    }
    assert(kt != first_from(nodes, 0));
    assert forall|m: int| kt + 1 <= m < i implies nodes[m].depth > nodes[kt].depth by {
        assert(old_s[n - 1] == t && nodes[m] == nodes[m]);
    }
    lemma_scan_end(nodes, kt, kt + 1, i);
    lemma_closed_parent(p, new_s[n - 2], t, nodes, chosen, i);
    assert forall|j: int| 0 <= j < new_s.len() implies open_from(
        #[trigger] new_s[j],
        nodes,
        chosen,
        frontier(new_s, j, i),
    ) by {
        if j < n - 2 {
            assert(new_s[j] == old_s[j]);
            assert(open_from(old_s[j], nodes, chosen, frontier(old_s, j, i)));
            if j + 1 < n - 2 {
                assert(new_s[j + 1] == old_s[j + 1]);
            }
        }
    }
    assert forall|j: int| 1 <= j < new_s.len() implies old_s[0].opener < (#[trigger] new_s[j]).opener by {
        if j < n - 2 {
            assert(new_s[j] == old_s[j]);
        } else {
            assert(old_s[0].opener < old_s[n - 2].opener);
        }
    }
    if n > 2 {
        assert(new_s[0] == old_s[0]);
    }
    assert forall|j: int, mm: int|
        #![trigger new_s[j], nodes[mm]]
        1 <= j < new_s.len() && new_s[j].opener < mm < i implies nodes[mm].depth > nodes[new_s[j].opener as int].depth by {
        if j < n - 2 {
            assert(new_s[j] == old_s[j]);
            assert(old_s[j] == old_s[j] && nodes[mm] == nodes[mm]);
        } else {
            assert(old_s[n - 2] == old_s[n - 2] && nodes[mm] == nodes[mm]);
        }
    }
}

proof fn lemma_open_basic(st: State, nodes: Seq<Node>, chosen: Option<Seq<MetricsList>>, f: int)
    requires
        open_from(st, nodes, chosen, f),
    ensures
        0 <= st.opener < f <= nodes.len(),
        st.depth == nodes[st.opener as int].depth,
        nodes[st.opener as int].opens_space,
{
    reveal(open_from);
}

proof fn lemma_openers_below(s: Seq<State>, nodes: Seq<Node>, chosen: Option<Seq<MetricsList>>, i: int, j: int)
    requires
        stack_shape(s, nodes, chosen, i),
        0 <= j < s.len(),
    ensures
        s[j].opener < i,
        1 <= j ==> nodes[s[j].opener as int].depth <= nodes[s.last().opener as int].depth,
    decreases s.len() - j,
{
    reveal(stack_shape);
    assert(open_from(s[j], nodes, chosen, frontier(s, j, i)));
    lemma_open_basic(s[j], nodes, chosen, frontier(s, j, i));
    if j + 1 < s.len() {
        lemma_openers_below(s, nodes, chosen, i, j + 1);
        if 1 <= j {
            let kn = s[j + 1].opener as int;
            assert(s[j].opener < kn < i);
            assert(s[j] == s[j] && nodes[kn] == nodes[kn]);
        }
    }
}

pub(crate) proof fn lemma_no_opener_before(nodes: Seq<Node>, i: int)
    requires
        !opened_upto(nodes, i),
    ensures
        forall|m: int| 0 <= m < i ==> !nodes[m].opens_space,
    decreases i,
{
    if i > 0 {
        lemma_no_opener_before(nodes, i - 1);
    }
}

/// After the spaces whose range ends at node `i` are closed, node `i` is
/// counted in the top space, or opens a new one.
#[verifier::rlimit(100)]
proof fn lemma_step_shape(
    old_s: Seq<State>,
    new_s: Seq<State>,
    nodes: Seq<Node>,
    chosen: Option<Seq<MetricsList>>,
    i: int,
)
    requires
        0 <= i < nodes.len(),
        stack_shape(old_s, nodes, chosen, i),
        old_s.len() <= 1 || nodes[i].depth > old_s.last().depth,
        (old_s.len() > 0) == opened_upto(nodes, i),
        nodes[i].opens_space ==> {
            &&& new_s.len() == old_s.len() + 1
            &&& forall|j: int| 0 <= j < old_s.len() ==> new_s[j] == old_s[j]
            &&& new_s.last().opener == i
            &&& new_s.last().depth == nodes[i].depth
            &&& header(new_s.last().space) == node_header(nodes, i)
            &&& new_s.last().space.name == nodes[i].name
            &&& new_s.last().space.spaces@.len() == 0
            &&& metrics_tally(new_s.last().space.metrics) == tadd(
                tzero(),
                masked(node_tally(nodes[i].counts), chosen),
            )
            &&& counts_tokens(chosen) ==> {
                &&& new_s.last().maps.wf()
                &&& keys_of(new_s.last().maps.operator_entries()).to_set() == Set::<u16>::empty()
                    + nodes[i].operators@.to_set()
                &&& keys_of(new_s.last().maps.operand_entries()).to_set() == Set::<Seq<u8>>::empty()
                    + operand_texts(nodes[i]).to_set()
                &&& exact_total(new_s.last().maps.operator_entries()) == nodes[i].operators@.len()
                &&& exact_total(new_s.last().maps.operand_entries()) == nodes[i].operands@.len()
            }
        },
        !nodes[i].opens_space && old_s.len() > 0 ==> {
            &&& new_s.len() == old_s.len()
            &&& forall|j: int| 0 <= j < old_s.len() - 1 ==> new_s[j] == old_s[j]
            &&& new_s.last().opener == old_s.last().opener
            &&& new_s.last().depth == old_s.last().depth
            &&& header(new_s.last().space) == header(old_s.last().space)
            &&& new_s.last().space.name == old_s.last().space.name
            &&& new_s.last().space.spaces == old_s.last().space.spaces
            &&& metrics_tally(new_s.last().space.metrics) == tadd(
                metrics_tally(old_s.last().space.metrics),
                masked(node_tally(nodes[i].counts), chosen),
            )
            &&& counts_tokens(chosen) ==> {
                &&& new_s.last().maps.wf()
                &&& keys_of(new_s.last().maps.operator_entries()).to_set() == keys_of(
                    old_s.last().maps.operator_entries(),
                ).to_set() + nodes[i].operators@.to_set()
                &&& keys_of(new_s.last().maps.operand_entries()).to_set() == keys_of(
                    old_s.last().maps.operand_entries(),
                ).to_set() + operand_texts(nodes[i]).to_set()
                &&& exact_total(new_s.last().maps.operator_entries()) == exact_total(
                    old_s.last().maps.operator_entries(),
                ) + nodes[i].operators@.len()
                &&& exact_total(new_s.last().maps.operand_entries()) == exact_total(
                    old_s.last().maps.operand_entries(),
                ) + nodes[i].operands@.len()
            }
        },
        !nodes[i].opens_space && old_s.len() == 0 ==> new_s.len() == 0,
    ensures
        stack_shape(new_s, nodes, chosen, i + 1),
{
    reveal(stack_shape);
    let n = old_s.len();
    if n > 0 {
        lemma_openers_below(old_s, nodes, chosen, i, 0);
        lemma_openers_below(old_s, nodes, chosen, i, n - 1);
        assert(open_from(old_s[n - 1], nodes, chosen, frontier(old_s, n - 1, i)));
        lemma_open_basic(old_s[n - 1], nodes, chosen, i);
    }
    assert(range_sum(nodes, chosen, i, i + 1) == tadd(
        range_sum(nodes, chosen, i, i),
        masked(node_tally(nodes[i].counts), chosen),
    ));
    if nodes[i].opens_space {
        let t = new_s.last();
        assert(open_from(t, nodes, chosen, i + 1)) by {
            reveal(open_from);
            assert(child_starts(nodes, i + 1, i + 1) =~= Seq::<int>::empty());
            assert(range_keys(nodes, i, i) == (Set::<u16>::empty(), Set::<Seq<u8>>::empty()));
            assert(token_total(nodes, i + 1).0 == token_total(nodes, i).0 + nodes[i].operators@.len());
        }
        if n == 0 {
            lemma_no_opener_before(nodes, i);
            lemma_first_from(nodes, 0, i);
        }
        assert forall|j: int| 0 <= j < new_s.len() implies open_from(
            #[trigger] new_s[j],
            nodes,
            chosen,
            frontier(new_s, j, i + 1),
        ) by {
            if j < n {
                assert(new_s[j] == old_s[j]);
                assert(open_from(old_s[j], nodes, chosen, frontier(old_s, j, i)));
                if j + 1 < n {
                    assert(new_s[j + 1] == old_s[j + 1]);
                }
            }
        }
        if n > 0 {
            assert(new_s[0] == old_s[0]);
        }
        assert forall|j: int| 1 <= j < new_s.len() implies new_s[0].opener < (#[trigger] new_s[j]).opener by {
            if j < n {
                assert(new_s[j] == old_s[j]);
            }
        }
        assert forall|j: int, mm: int|
            #![trigger new_s[j], nodes[mm]]
            1 <= j < new_s.len() && new_s[j].opener < mm < i + 1 implies nodes[mm].depth
                > nodes[new_s[j].opener as int].depth by {
            if j < n {
                assert(new_s[j] == old_s[j]);
                if mm < i {
                    assert(old_s[j] == old_s[j] && nodes[mm] == nodes[mm]);
                } else {
                    lemma_openers_below(old_s, nodes, chosen, i, j);
                }
            }
        }
    } else if n > 0 {
        let t0 = old_s.last();
        let t = new_s.last();
        assert(open_from(t0, nodes, chosen, i));
        assert(open_from(t, nodes, chosen, i + 1)) by {
            reveal(open_from);
            let k = t.opener as int;
            assert(step(nodes, i) == i + 1);
            lemma_reaches_step(nodes, k + 1, i);
            lemma_child_starts_split(nodes, k + 1, i, i + 1);
            assert(child_starts(nodes, i + 1, i + 1) =~= Seq::<int>::empty());
            assert(child_starts(nodes, i, i + 1) == child_starts(nodes, i + 1, i + 1));
            let cs0 = child_starts(nodes, k + 1, i);
            let cs1 = child_starts(nodes, k + 1, i + 1);
            assert(cs1 =~= cs0);
            let m = cs0.len() as int;
            lemma_children_prefix(t.space, t0.space, nodes, chosen, cs1, cs0, m);
            lemma_range_split(nodes, chosen, k, i, i + 1);
            assert(token_total(nodes, i + 1).0 == token_total(nodes, i).0 + nodes[i].operators@.len());
            assert(token_total(nodes, i + 1).1 == token_total(nodes, i).1 + nodes[i].operands@.len());
        }
        assert forall|j: int| 0 <= j < new_s.len() implies open_from(
            #[trigger] new_s[j],
            nodes,
            chosen,
            frontier(new_s, j, i + 1),
        ) by {
            if j < n - 1 {
                assert(new_s[j] == old_s[j]);
                assert(open_from(old_s[j], nodes, chosen, frontier(old_s, j, i)));
                if j + 1 < n - 1 {
                    assert(new_s[j + 1] == old_s[j + 1]);
                }
            }
        }
        if n > 1 {
            assert(new_s[0] == old_s[0]);
        }
        assert forall|j: int| 1 <= j < new_s.len() implies new_s[0].opener < (#[trigger] new_s[j]).opener by {
            if j < n - 1 {
                assert(new_s[j] == old_s[j]);
            }
            assert(old_s[0].opener < old_s[j].opener);
        }
        assert forall|j: int, mm: int|
            #![trigger new_s[j], nodes[mm]]
            1 <= j < new_s.len() && new_s[j].opener < mm < i + 1 implies nodes[mm].depth
                > nodes[new_s[j].opener as int].depth by {
            if j < n - 1 {
                assert(new_s[j] == old_s[j]);
            }
            assert(new_s[j].opener == old_s[j].opener);
            if mm < i {
                assert(old_s[j] == old_s[j] && nodes[mm] == nodes[mm]);
            } else {
                lemma_openers_below(old_s, nodes, chosen, i, j);
            }
        }
    }
}

proof fn lemma_root_from(s: Seq<State>, root: FuncSpace, nodes: Seq<Node>, chosen: Option<Seq<MetricsList>>)
    requires
        s.len() == 1,
        stack_shape(s, nodes, chosen, nodes.len() as int),
        root.spaces == s[0].space.spaces,
        header(root) == header(s[0].space),
        metrics_tally(root.metrics) == metrics_tally(s[0].space.metrics),
        finalized(root.metrics, s[0].maps.counts(), chosen),
        token_total(nodes, nodes.len() as int).0 <= usize::MAX,
        token_total(nodes, nodes.len() as int).1 <= usize::MAX,
    ensures
        space_from(root, nodes, chosen, first_from(nodes, 0)),
{
    reveal(stack_shape);
    reveal(open_from);
    let st = s[0];
    assert(open_from(st, nodes, chosen, frontier(s, 0, nodes.len() as int)));
    if counts_tokens(chosen) {
        lemma_counts_from(st, root.metrics, nodes, chosen, st.opener as int, nodes.len() as int);
    }
    let k = st.opener as int;
    let cs = child_starts(nodes, k + 1, nodes.len() as int);
    assert(root.spaces@.take(cs.len() as int) == st.space.spaces@.take(cs.len() as int));
    lemma_children_prefix(root, st.space, nodes, chosen, cs, cs, cs.len() as int);
}

/// Whether the token metric runs under a selection.
pub open spec fn counts_tokens(chosen: Option<Seq<MetricsList>>) -> bool {
    selected(chosen, MetricsList::Mi) || selected(chosen, MetricsList::Halstead)
}

/// Operator and operand occurrences over the nodes in `[a, b)`.
pub open spec fn range_tokens(nodes: Seq<Node>, a: int, b: int) -> (int, int) {
    (token_total(nodes, b).0 - token_total(nodes, a).0, token_total(nodes, b).1 - token_total(nodes, a).1)
}

/// The token counts of the nodes in `[k, e)`: distinct and total operators,
/// distinct and total operands.
pub open spec fn range_counts(nodes: Seq<Node>, k: int, e: int) -> (int, int, int, int) {
    (
        range_keys(nodes, k, e).0.len() as int,
        range_tokens(nodes, k, e).0,
        range_keys(nodes, k, e).1.len() as int,
        range_tokens(nodes, k, e).1,
    )
}

proof fn lemma_token_total_nonneg(nodes: Seq<Node>, a: int)
    ensures
        0 <= token_total(nodes, a).0,
        0 <= token_total(nodes, a).1,
    decreases a,
{
    if a > 0 {
        lemma_token_total_nonneg(nodes, a - 1);
    }
}

proof fn lemma_token_total_monotone(nodes: Seq<Node>, a: int, b: int)
    requires
        0 <= a <= b <= nodes.len(),
    ensures
        0 <= token_total(nodes, a).0 <= token_total(nodes, b).0,
        0 <= token_total(nodes, a).1 <= token_total(nodes, b).1,
    decreases b,
{
    lemma_token_total_nonneg(nodes, a);
    if a < b {
        lemma_token_total_monotone(nodes, a, b - 1);
    }
}

/// The maps of an open space hold the tokens of its range so far.
spec fn maps_from(st: State, nodes: Seq<Node>, k: int, f: int) -> bool {
    &&& st.maps.wf()
    &&& keys_of(st.maps.operator_entries()).to_set() == range_keys(nodes, k, f).0
    &&& keys_of(st.maps.operand_entries()).to_set() == range_keys(nodes, k, f).1
    &&& exact_total(st.maps.operator_entries()) == range_tokens(nodes, k, f).0
    &&& exact_total(st.maps.operand_entries()) == range_tokens(nodes, k, f).1
}

/// A space closed from state `st` over `[k, e)` has the token counts of that range.
proof fn lemma_counts_from(st: State, m: CodeMetrics, nodes: Seq<Node>, chosen: Option<Seq<MetricsList>>, k: int, e: int)
    requires
        0 <= k <= e <= nodes.len(),
        token_total(nodes, nodes.len() as int).0 <= usize::MAX,
        token_total(nodes, nodes.len() as int).1 <= usize::MAX,
        maps_from(st, nodes, k, e),
        finalized(m, st.maps.counts(), chosen),
        counts_tokens(chosen),
    ensures
        m.halstead.counts() == range_counts(nodes, k, e),
{
    lemma_token_total_monotone(nodes, k, e);
    lemma_token_total_monotone(nodes, e, nodes.len() as int);
    crate::halstead::lemma_entries_count_keys(st.maps.operator_entries());
    crate::halstead::lemma_entries_count_keys(st.maps.operand_entries());
    crate::halstead::lemma_sat_total_exact(st.maps.operator_entries());
    crate::halstead::lemma_sat_total_exact(st.maps.operand_entries());
}

} // verus!
