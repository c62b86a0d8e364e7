use vstd::prelude::*;
use arrayvec::ArrayVec;

verus! {

/// `arrayvec::ArrayVec`, a vector of fixed capacity `CAP`, held opaquely.
#[verifier::external_type_specification]
#[verifier::external_body]
#[verifier::reject_recursive_types(T)]
pub struct ExArrayVec<T, const CAP: usize>(ArrayVec<T, CAP>);

/// A list of the supported metrics.
#[derive(Debug, Clone, Copy, PartialEq, Eq, Structural)]
pub enum MetricsList {
    Nargs,
    Nexits,
    Cyclomatic,
    Halstead,
    Loc,
    Mi,
    Nom,
}

/// The name of each metric.
pub open spec fn metric_name(m: MetricsList) -> Seq<char> {
    match m {
        MetricsList::Nargs => "nargs"@,
        MetricsList::Nexits => "nexits"@,
        MetricsList::Cyclomatic => "cyclomatic"@,
        MetricsList::Halstead => "halstead"@,
        MetricsList::Loc => "loc"@,
        MetricsList::Mi => "mi"@,
        MetricsList::Nom => "nom"@,
    }
}

/// The supported metrics, in the order they are listed.
pub open spec fn all_metrics() -> Seq<MetricsList> {
    seq![
        MetricsList::Nargs,
        MetricsList::Nexits,
        MetricsList::Cyclomatic,
        MetricsList::Halstead,
        MetricsList::Mi,
        MetricsList::Loc,
        MetricsList::Nom,
    ]
}

impl MetricsList {
    /// The name of this metric.
    pub fn name(&self) -> (r: &'static str)
        ensures
            r@ == metric_name(*self),
    {
        proof {
            reveal_strlit("nargs");
            reveal_strlit("nexits");
            reveal_strlit("cyclomatic");
            reveal_strlit("halstead");
            reveal_strlit("loc");
            reveal_strlit("mi");
            reveal_strlit("nom");
        }
        match self {
            MetricsList::Nargs => "nargs",
            MetricsList::Nexits => "nexits",
            MetricsList::Cyclomatic => "cyclomatic",
            MetricsList::Halstead => "halstead",
            MetricsList::Loc => "loc",
            MetricsList::Mi => "mi",
            MetricsList::Nom => "nom",
        }
    }

    /// The metric named `metric`, if any.
    pub fn from_name(metric: &str) -> (r: Option<MetricsList>)
        ensures
            r matches Some(m) ==> metric_name(m) == metric@,
            r is None ==> forall|m: MetricsList| metric_name(m) != metric@,
    {
        let wanted = metric.to_owned();
        let order = vec![
            MetricsList::Nargs,
            MetricsList::Nexits,
            MetricsList::Cyclomatic,
            MetricsList::Halstead,
            MetricsList::Mi,
            MetricsList::Loc,
            MetricsList::Nom,
        ];
        assert(order@ =~= all_metrics());
        let mut i: usize = 0;
        while i < order.len()
            invariant
                order@ == all_metrics(),
                wanted@ == metric@,
                0 <= i <= order@.len(),
                forall|j: int| 0 <= j < i ==> metric_name(#[trigger] all_metrics()[j]) != metric@,
            decreases order@.len() - i,
        {
            let name = order[i].name().to_owned();
            if name == wanted {
                return Some(order[i]);
            }
            i = i + 1;
        }
        assert forall|m: MetricsList| metric_name(m) != metric@ by {
            let j: int = match m {
                MetricsList::Nargs => 0,
                MetricsList::Nexits => 1,
                MetricsList::Cyclomatic => 2,
                MetricsList::Halstead => 3,
                MetricsList::Mi => 4,
                MetricsList::Loc => 5,
                MetricsList::Nom => 6,
            };
            assert(all_metrics()[j] == m);
        }
        None
    }

    /// Returns the names of the supported metrics.
    pub fn all() -> (r: Vec<&'static str>)
        ensures
            r@.len() == all_metrics().len(),
            forall|i: int| 0 <= i < r@.len() ==> #[trigger] r@[i]@ == metric_name(all_metrics()[i]),
    {
        let order = vec![
            MetricsList::Nargs,
            MetricsList::Nexits,
            MetricsList::Cyclomatic,
            MetricsList::Halstead,
            MetricsList::Mi,
            MetricsList::Loc,
            MetricsList::Nom,
        ];
        assert(order@ =~= all_metrics());
        let mut r: Vec<&'static str> = Vec::new();
        let mut i: usize = 0;
        while i < order.len()
            invariant
                order@ == all_metrics(),
                0 <= i <= order@.len(),
                r@.len() == i,
                forall|j: int| 0 <= j < i ==> #[trigger] r@[j]@ == metric_name(all_metrics()[j]),
            decreases order@.len() - i,
        {
            r.push(order[i].name());
            i = i + 1;
        }
        r
    }
}

/// What an `ArrayVec` of metrics holds, in order.
pub uninterp spec fn chosen_items(v: ArrayVec<MetricsList, 7>) -> Seq<MetricsList>;

/// Relies on `ArrayVec::new`: an empty vector.
#[verifier::external_body]
fn list_new() -> (r: ArrayVec<MetricsList, 7>)
    ensures
        chosen_items(r) == Seq::<MetricsList>::empty(),
{
    ArrayVec::new()
}

/// Relies on `ArrayVec::push`: appends at the end; panics only when full,
/// which the precondition rules out.
#[verifier::external_body]
fn list_push(v: &mut ArrayVec<MetricsList, 7>, m: MetricsList)
    requires
        chosen_items(*old(v)).len() < 7,
    ensures
        chosen_items(*final(v)) == chosen_items(*old(v)).push(m),
{
    v.push(m)
}

/// Relies on `ArrayVec::len`: the number of elements, never above the
/// capacity.
#[verifier::external_body]
fn list_len(v: &ArrayVec<MetricsList, 7>) -> (r: usize)
    ensures
        r == chosen_items(*v).len(),
        r <= 7,
{
    v.len()
}

/// Relies on `ArrayVec::as_slice`: the elements in order.
#[verifier::external_body]
fn list_at(v: &ArrayVec<MetricsList, 7>, i: usize) -> (r: MetricsList)
    requires
        i < chosen_items(*v).len(),
    ensures
        r == chosen_items(*v)[i as int],
{
    v.as_slice()[i]
}

/// Appends each metric of `list` not yet in `acc`, in order, while fewer
/// than seven are held.
pub open spec fn add_new(acc: Seq<MetricsList>, list: Seq<MetricsList>) -> Seq<MetricsList>
    decreases list.len(),
{
    if list.len() == 0 {
        acc
    } else {
        let prev = add_new(acc, list.drop_last());
        if prev.len() < 7 && !prev.contains(list.last()) {
            prev.push(list.last())
        } else {
            prev
        }
    }
}

/// The metrics that `Mi` depends on, followed by `Mi` itself.
pub open spec fn mi_group() -> Seq<MetricsList> {
    seq![MetricsList::Cyclomatic, MetricsList::Loc, MetricsList::Halstead, MetricsList::Mi]
}

/// The metrics to run for a request.
pub open spec fn selection_of(list: Seq<MetricsList>) -> Seq<MetricsList> {
    add_new(if list.contains(MetricsList::Mi) { mi_group() } else { Seq::empty() }, list)
}

/// The chosen metrics to be computed.
pub struct ChosenMetrics {
    chosen_metrics: ArrayVec<MetricsList, 7>,
}

impl View for ChosenMetrics {
    type V = Seq<MetricsList>;

    closed spec fn view(&self) -> Seq<MetricsList> {
        chosen_items(self.chosen_metrics)
    }
}

impl ChosenMetrics {
    /// Creates a new list of chosen metrics.
    pub fn new(metrics_list: &[MetricsList]) -> (r: ChosenMetrics)
        ensures
            r@ == selection_of(metrics_list@),
    {
        let mut chosen_metrics = list_new();
        let mut wants_mi = false;
        let mut i: usize = 0;
        while i < metrics_list.len()
            invariant
                0 <= i <= metrics_list@.len(),
                wants_mi == metrics_list@.take(i as int).contains(MetricsList::Mi),
            decreases metrics_list@.len() - i,
        {
            if metrics_list[i] == MetricsList::Mi {
                wants_mi = true;
            }
            proof {
                let t = metrics_list@.take(i as int);
                let t1 = metrics_list@.take(i + 1);
                assert(t1 =~= t.push(metrics_list@[i as int]));
                if t.contains(MetricsList::Mi) {
                    let k = choose|k: int| 0 <= k < t.len() && t[k] == MetricsList::Mi;
                    assert(t1[k] == MetricsList::Mi);
                }
                if metrics_list@[i as int] == MetricsList::Mi {
                    assert(t1[i as int] == MetricsList::Mi);
                }
                if t1.contains(MetricsList::Mi) {
                    let k = choose|k: int| 0 <= k < t1.len() && t1[k] == MetricsList::Mi;
                    if k < i {
                        assert(t[k] == MetricsList::Mi);
                    }
                }
            }
            i = i + 1;
        }
        assert(metrics_list@.take(i as int) =~= metrics_list@);
        if wants_mi {
            list_push(&mut chosen_metrics, MetricsList::Cyclomatic);
            list_push(&mut chosen_metrics, MetricsList::Loc);
            list_push(&mut chosen_metrics, MetricsList::Halstead);
            list_push(&mut chosen_metrics, MetricsList::Mi);
            assert(chosen_items(chosen_metrics) =~= mi_group());
        }
        let ghost start = chosen_items(chosen_metrics);
        let mut i: usize = 0;
        while i < metrics_list.len()
            invariant
                0 <= i <= metrics_list@.len(),
                chosen_items(chosen_metrics) == add_new(start, metrics_list@.take(i as int)),
            decreases metrics_list@.len() - i,
        {
            proof {
                assert(metrics_list@.take(i + 1).drop_last() =~= metrics_list@.take(i as int));
            }
            let m = metrics_list[i];
            let held = list_len(&chosen_metrics);
            if held < 7 && !contains(&chosen_metrics, m) {
                list_push(&mut chosen_metrics, m);
            }
            i = i + 1;
        }
        assert(metrics_list@.take(i as int) =~= metrics_list@);
        ChosenMetrics { chosen_metrics }
    }

    /// Whether all seven metrics are chosen.
    pub fn is_full(&self) -> (r: bool)
        ensures
            r == (self@.len() == 7),
    {
        list_len(&self.chosen_metrics) == 7
    }

    /// Whether `metric` is chosen.
    pub fn is_metric(&self, metric: MetricsList) -> (r: bool)
        ensures
            r == self@.contains(metric),
    {
        contains(&self.chosen_metrics, metric)
    }

    /// Whether `metric` is the last one chosen.
    pub fn is_last(&self, metric: &MetricsList) -> (r: bool)
        ensures
            r == (self@.len() > 0 && self@.last() == *metric),
    {
        let n = list_len(&self.chosen_metrics);
        n > 0 && list_at(&self.chosen_metrics, n - 1) == *metric
    }

    /// The chosen metrics, in order.
    pub fn metrics(&self) -> (r: Vec<MetricsList>)
        ensures
            r@ == self@,
    {
        let n = list_len(&self.chosen_metrics);
        let mut r: Vec<MetricsList> = Vec::new();
        let mut i: usize = 0;
        while i < n
            invariant
                n == self@.len(),
                0 <= i <= n,
                r@ == self@.take(i as int),
            decreases n - i,
        {
            r.push(list_at(&self.chosen_metrics, i));
            proof {
                assert(self@.take(i + 1) =~= self@.take(i as int).push(self@[i as int]));
            }
            i = i + 1;
        }
        assert(self@.take(n as int) =~= self@);
        r
    }
}

fn contains(v: &ArrayVec<MetricsList, 7>, m: MetricsList) -> (r: bool)
    ensures
        r == chosen_items(*v).contains(m),
{
    let n = list_len(v);
    let mut i: usize = 0;
    while i < n
        invariant
            n == chosen_items(*v).len(),
            0 <= i <= n,
            forall|j: int| 0 <= j < i ==> chosen_items(*v)[j] != m,
        decreases n - i,
    {
        if list_at(v, i) == m {
            return true;
        }
        i = i + 1;
    }
    false
}

/// Seven distinct metrics are all of them.
proof fn lemma_seven_distinct_hold_all(s: Seq<MetricsList>, m: MetricsList)
    requires
        s.no_duplicates(),
        s.len() >= 7,
    ensures
        s.contains(m),
{
    if !s.contains(m) {
        let univ = set![
            MetricsList::Nargs,
            MetricsList::Nexits,
            MetricsList::Cyclomatic,
            MetricsList::Halstead,
            MetricsList::Loc,
            MetricsList::Mi,
            MetricsList::Nom,
        ];
        assert(univ.len() == 7);
        let rest = univ.remove(m);
        assert(univ.contains(m));
        assert(rest.len() == 6);
        s.unique_seq_to_set();
        assert forall|x: MetricsList| s.to_set().contains(x) implies rest.contains(x) by {
            assert(univ.contains(x));
        }
        vstd::set_lib::lemma_len_subset(s.to_set(), rest);
    }
}

proof fn lemma_add_new(acc: Seq<MetricsList>, list: Seq<MetricsList>)
    requires
        acc.no_duplicates(),
    ensures
        add_new(acc, list).no_duplicates(),
        forall|x: MetricsList| acc.contains(x) ==> add_new(acc, list).contains(x),
        forall|j: int| 0 <= j < list.len() ==> add_new(acc, list).contains(#[trigger] list[j]),
    decreases list.len(),
{
    if list.len() > 0 {
        let prev = add_new(acc, list.drop_last());
        lemma_add_new(acc, list.drop_last());
        let last = list.last();
        if prev.len() < 7 && !prev.contains(last) {
            let r = prev.push(last);
            assert(r.no_duplicates()) by {
                assert forall|a: int, b: int| 0 <= a < r.len() && 0 <= b < r.len() && a != b implies r[a]
                    != r[b] by {
                    if a == r.len() - 1 && b < prev.len() {
                        assert(prev[b] == r[b]);
                    } else if b == r.len() - 1 && a < prev.len() {
                        assert(prev[a] == r[a]);
                    }
                }
            }
            assert forall|x: MetricsList| prev.contains(x) implies r.contains(x) by {
                let q = choose|q: int| 0 <= q < prev.len() && prev[q] == x;
                assert(r[q] == x);
            }
            assert(r[r.len() - 1] == last);
        } else if !prev.contains(last) {
            lemma_seven_distinct_hold_all(prev, last);
        }
        assert forall|j: int| 0 <= j < list.len() implies add_new(acc, list).contains(#[trigger] list[j]) by {
            if j < list.len() - 1 {
                assert(list.drop_last()[j] == list[j]);
            }
        }
    }
}

/// The metrics a request selects: none twice; every requested one; and, when
/// `Mi` is requested, the decision-point, line and token metrics it is
/// computed from.
pub proof fn lemma_selection_complete(list: Seq<MetricsList>)
    ensures
        selection_of(list).no_duplicates(),
        forall|j: int| 0 <= j < list.len() ==> selection_of(list).contains(#[trigger] list[j]),
        list.contains(MetricsList::Mi) ==> {
            &&& selection_of(list).contains(MetricsList::Cyclomatic)
            &&& selection_of(list).contains(MetricsList::Loc)
            &&& selection_of(list).contains(MetricsList::Halstead)
            &&& selection_of(list).contains(MetricsList::Mi)
        },
{
    let g = mi_group();
    if list.contains(MetricsList::Mi) {
        assert(g[0] == MetricsList::Cyclomatic && g[1] == MetricsList::Loc);
        assert(g[2] == MetricsList::Halstead && g[3] == MetricsList::Mi);
        assert(g.contains(MetricsList::Cyclomatic) && g.contains(MetricsList::Loc));
        assert(g.contains(MetricsList::Halstead) && g.contains(MetricsList::Mi));
        lemma_add_new(g, list);
    } else {
        lemma_add_new(Seq::empty(), list);
    }
}

} // verus!
