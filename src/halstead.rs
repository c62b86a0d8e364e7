use vstd::prelude::*;
use crate::nexits::sat_add;

verus! {

/// The count held for key `k` in a list of `(key, count)` entries; zero when
/// `k` is absent.
pub open spec fn lookup<K>(s: Seq<(K, usize)>, k: K) -> int
    decreases s.len(),
{
    if s.len() == 0 {
        0
    } else if s.last().0 == k {
        s.last().1 as int
    } else {
        lookup(s.drop_last(), k)
    }
}

/// No key occurs twice.
pub open spec fn keys_distinct<K>(s: Seq<(K, usize)>) -> bool {
    forall|i: int, j: int| 0 <= i < j < s.len() ==> s[i].0 != s[j].0
}

/// The keys, in the order they were first met.
pub open spec fn keys_of<K>(s: Seq<(K, usize)>) -> Seq<K> {
    s.map_values(|p: (K, usize)| p.0)
}

/// Sum of the counts, saturated at `usize::MAX` step by step.
pub open spec fn sat_total<K>(s: Seq<(K, usize)>) -> int
    decreases s.len(),
{
    if s.len() == 0 {
        0
    } else {
        sat_add(sat_total(s.drop_last()), s.last().1 as int)
    }
}

proof fn lemma_lookup_absent<K>(s: Seq<(K, usize)>, k: K)
    requires
        forall|i: int| 0 <= i < s.len() ==> s[i].0 != k,
    ensures
        lookup(s, k) == 0,
    decreases s.len(),
{
    if s.len() > 0 {
        lemma_lookup_absent(s.drop_last(), k);
    }
}

proof fn lemma_lookup_at<K>(s: Seq<(K, usize)>, i: int)
    requires
        keys_distinct(s),
        0 <= i < s.len(),
    ensures
        lookup(s, s[i].0) == s[i].1,
    decreases s.len(),
{
    if i < s.len() - 1 {
        assert(keys_distinct(s.drop_last()));
        lemma_lookup_at(s.drop_last(), i);
    }
}

proof fn lemma_lookup_update<K>(s: Seq<(K, usize)>, i: int, v: usize, k: K)
    requires
        0 <= i < s.len(),
    ensures
        k != s[i].0 ==> lookup(s.update(i, (s[i].0, v)), k) == lookup(s, k),
        keys_distinct(s) ==> keys_distinct(s.update(i, (s[i].0, v))),
        keys_distinct(s) && k == s[i].0 ==> lookup(s.update(i, (s[i].0, v)), k) == v,
    decreases s.len(),
{
    let t = s.update(i, (s[i].0, v));
    if keys_distinct(s) {
        assert(keys_distinct(t));
        if k == s[i].0 {
            lemma_lookup_at(t, i);
        }
    }
    if i < s.len() - 1 {
        lemma_lookup_update(s.drop_last(), i, v, k);
        assert(t.drop_last() =~= s.drop_last().update(i, (s[i].0, v)));
    } else {
        assert(t.drop_last() =~= s.drop_last());
    }
}

proof fn lemma_lookup_nonneg<K>(s: Seq<(K, usize)>, k: K)
    ensures
        0 <= lookup(s, k) <= usize::MAX,
    decreases s.len(),
{
    if s.len() > 0 {
        lemma_lookup_nonneg(s.drop_last(), k);
    }
}

/// A fresh count for `k` added after the counts of `s`.
proof fn lemma_prefix_step<K>(s: Seq<(K, usize)>, j: int, k: K)
    requires
        keys_distinct(s),
        0 <= j < s.len(),
    ensures
        s[j].0 == k ==> lookup(s.take(j + 1), k) == s[j].1 && lookup(s.take(j), k) == 0,
        s[j].0 != k ==> lookup(s.take(j + 1), k) == lookup(s.take(j), k),
{
    assert(s.take(j + 1).drop_last() =~= s.take(j));
    if s[j].0 == k {
        lemma_lookup_absent(s.take(j), k);
    }
}

/// Sum of the counts.
pub open spec fn exact_total<K>(s: Seq<(K, usize)>) -> int
    decreases s.len(),
{
    if s.len() == 0 {
        0
    } else {
        exact_total(s.drop_last()) + s.last().1
    }
}

pub(crate) proof fn lemma_exact_total_nonneg<K>(s: Seq<(K, usize)>)
    ensures
        0 <= exact_total(s),
    decreases s.len(),
{
    if s.len() > 0 {
        lemma_exact_total_nonneg(s.drop_last());
    }
}

proof fn lemma_exact_total_update<K>(s: Seq<(K, usize)>, i: int, v: usize)
    requires
        0 <= i < s.len(),
    ensures
        exact_total(s.update(i, (s[i].0, v))) == exact_total(s) - s[i].1 + v,
        s[i].1 <= exact_total(s),
    decreases s.len(),
{
    let t = s.update(i, (s[i].0, v));
    lemma_exact_total_nonneg(s.drop_last());
    if i < s.len() - 1 {
        lemma_exact_total_update(s.drop_last(), i, v);
        assert(t.drop_last() =~= s.drop_last().update(i, (s[i].0, v)));
    } else {
        assert(t.drop_last() =~= s.drop_last());
    }
}

proof fn lemma_exact_total_prefix<K>(s: Seq<(K, usize)>, j: int)
    requires
        0 <= j < s.len(),
    ensures
        exact_total(s.take(j + 1)) == exact_total(s.take(j)) + s[j].1,
        exact_total(s.take(j + 1)) <= exact_total(s),
    decreases s.len() - j,
{
    assert(s.take(j + 1).drop_last() =~= s.take(j));
    if j + 1 < s.len() {
        lemma_exact_total_prefix(s, j + 1);
    } else {
        assert(s.take(j + 1) =~= s);
    }
}

/// Without saturation the step-by-step saturated sum is the sum.
pub(crate) proof fn lemma_sat_total_exact<K>(s: Seq<(K, usize)>)
    requires
        exact_total(s) <= usize::MAX,
    ensures
        sat_total(s) == exact_total(s),
    decreases s.len(),
{
    if s.len() > 0 {
        lemma_exact_total_nonneg(s.drop_last());
        lemma_sat_total_exact(s.drop_last());
    }
}

pub(crate) proof fn lemma_push_key_set<K>(s: Seq<K>, k: K)
    ensures
        s.push(k).to_set() == s.to_set().insert(k),
{
    assert forall|x: K| s.push(k).to_set().contains(x) implies s.to_set().insert(k).contains(x) by {
        let q = choose|q: int| 0 <= q < s.push(k).len() && s.push(k)[q] == x;
        if q < s.len() {
            assert(s[q] == x);
        }
    }
    assert forall|x: K| s.to_set().insert(k).contains(x) implies s.push(k).to_set().contains(x) by {
        if x == k {
            assert(s.push(k)[s.len() as int] == k);
        } else {
            let q = choose|q: int| 0 <= q < s.len() && s[q] == x;
            assert(s.push(k)[q] == x);
        }
    }
    assert(s.push(k).to_set() =~= s.to_set().insert(k));
}

/// With distinct keys, there are as many entries as keys.
pub(crate) proof fn lemma_entries_count_keys<K>(s: Seq<(K, usize)>)
    requires
        keys_distinct(s),
    ensures
        s.len() == keys_of(s).to_set().len(),
{
    assert(keys_of(s).no_duplicates()) by {
        assert forall|i: int, j: int| 0 <= i < keys_of(s).len() && 0 <= j < keys_of(s).len() && i != j
            implies keys_of(s)[i] != keys_of(s)[j] by {
            if i < j {
                assert(s[i].0 != s[j].0);
            } else {
                assert(s[j].0 != s[i].0);
            }
        }
    }
    keys_of(s).unique_seq_to_set();
}

/// Keys drawn from two lists that are all below a bound are below it too.
pub(crate) proof fn lemma_keys_below(
    s: Seq<(u16, usize)>,
    a: Seq<(u16, usize)>,
    b: Seq<(u16, usize)>,
    bound: int,
)
    requires
        forall|x: u16| keys_of(s).contains(x) ==> keys_of(a).contains(x) || keys_of(b).contains(x),
        forall|q: int| 0 <= q < a.len() ==> #[trigger] a[q].0 < bound,
        forall|q: int| 0 <= q < b.len() ==> #[trigger] b[q].0 < bound,
    ensures
        forall|q: int| 0 <= q < s.len() ==> #[trigger] s[q].0 < bound,
{
    assert forall|q: int| 0 <= q < s.len() implies #[trigger] s[q].0 < bound by {
        let x = s[q].0;
        assert(keys_of(s)[q] == x);
        if keys_of(a).contains(x) {
            let p = choose|p: int| 0 <= p < keys_of(a).len() && keys_of(a)[p] == x;
            assert(a[p].0 == x);
        } else {
            let p = choose|p: int| 0 <= p < keys_of(b).len() && keys_of(b)[p] == x;
            assert(b[p].0 == x);
        }
    }
}

/// The transient token maps of one space: how often each operator and each
/// operand was met.
#[derive(Debug, Clone)]
pub struct HalsteadMaps {
    operators: Vec<(u16, usize)>,
    operands: Vec<(Vec<u8>, usize)>,
}

/// An operand entry seen through the view of its text.
pub open spec fn operand_view(p: (Vec<u8>, usize)) -> (Seq<u8>, usize) {
    (p.0@, p.1)
}

impl HalsteadMaps {
    /// The operator entries.
    pub closed spec fn operator_entries(&self) -> Seq<(u16, usize)> {
        self.operators@
    }

    /// The operand entries, each operand as its bytes.
    pub closed spec fn operand_entries(&self) -> Seq<(Seq<u8>, usize)> {
        self.operands@.map_values(|p: (Vec<u8>, usize)| operand_view(p))
    }

    /// Each operator and each operand has a single entry.
    pub open spec fn wf(&self) -> bool {
        keys_distinct(self.operator_entries()) && keys_distinct(self.operand_entries())
    }

    /// How often operator `k` was met.
    pub open spec fn operator_count(&self, k: u16) -> int {
        lookup(self.operator_entries(), k)
    }

    /// How often operand `k` was met.
    pub open spec fn operand_count(&self, k: Seq<u8>) -> int {
        lookup(self.operand_entries(), k)
    }

    /// Empty maps.
    pub fn new() -> (r: HalsteadMaps)
        ensures
            r.wf(),
            r.operator_entries().len() == 0,
            r.operand_entries().len() == 0,
    {
        let r = HalsteadMaps { operators: Vec::new(), operands: Vec::new() };
        assert(r.operand_entries() =~= Seq::<(Seq<u8>, usize)>::empty());
        r
    }

    /// Counts operator `k` `n` more times, saturating at `usize::MAX`.
    pub fn add_operator(&mut self, k: u16, n: usize)
        requires
            old(self).wf(),
        ensures
            final(self).wf(),
            final(self).operand_entries() == old(self).operand_entries(),
            exact_total(old(self).operator_entries()) + n <= usize::MAX ==> exact_total(
                final(self).operator_entries(),
            ) == exact_total(old(self).operator_entries()) + n,
            forall|x: u16|
                keys_of(final(self).operator_entries()).contains(x) ==> x == k || keys_of(
                    old(self).operator_entries(),
                ).contains(x),
            keys_of(final(self).operator_entries()).to_set() == keys_of(
                old(self).operator_entries(),
            ).to_set().insert(k),
            forall|x: u16|
                #![trigger final(self).operator_count(x)]
                final(self).operator_count(x) == if x == k {
                    sat_add(old(self).operator_count(x), n as int)
                } else {
                    old(self).operator_count(x)
                },
    {
        let ghost s0 = self.operators@;
        let mut i: usize = 0;
        while i < self.operators.len()
            invariant
                s0 == self.operators@,
                s0 == old(self).operators@,
                old(self).wf(),
                self.operands == old(self).operands,
                keys_distinct(s0),
                0 <= i <= s0.len(),
                forall|j: int| 0 <= j < i ==> s0[j].0 != k,
            decreases s0.len() - i,
        {
            if self.operators[i].0 == k {
                let c = self.operators[i].1;
                let v = c.saturating_add(n);
                self.operators.set(i, (k, v));
                proof {
                    assert(self.operators@ == s0.update(i as int, (s0[i as int].0, v)));
                    lemma_lookup_at(s0, i as int);
                    assert forall|x: u16| true implies #[trigger] lookup(self.operators@, x) == if x
                        == k {
                        sat_add(lookup(s0, x), n as int)
                    } else {
                        lookup(s0, x)
                    } by {
                        lemma_lookup_update(s0, i as int, v, x);
                    }
                    lemma_lookup_update(s0, i as int, v, k);
                    assert(keys_of(self.operators@) =~= keys_of(s0));
                    assert(keys_of(s0)[i as int] == k);
                    assert(keys_of(s0).to_set() =~= keys_of(s0).to_set().insert(k));
                    lemma_exact_total_update(s0, i as int, v);
                }
                return;
            }
            i = i + 1;
        }
        proof {
            lemma_lookup_absent(s0, k);
        }
        self.operators.push((k, n));
        proof {
            assert(self.operators@.drop_last() =~= s0);
            assert(keys_distinct(self.operators@));
            assert(exact_total(self.operators@) == exact_total(s0) + n);
            assert(keys_of(self.operators@) =~= keys_of(s0).push(k));
            lemma_push_key_set(keys_of(s0), k);
            assert forall|x: u16| keys_of(self.operators@).contains(x) implies x == k || keys_of(
                s0,
            ).contains(x) by {
                let q = choose|q: int| 0 <= q < keys_of(self.operators@).len() && keys_of(self.operators@)[q] == x;
                if q < s0.len() {
                    assert(keys_of(s0)[q] == x);
                }
            }
        }
    }

    /// Counts operand `k` `n` more times, saturating at `usize::MAX`.
    pub fn add_operand(&mut self, k: &Vec<u8>, n: usize)
        requires
            old(self).wf(),
        ensures
            final(self).wf(),
            final(self).operator_entries() == old(self).operator_entries(),
            exact_total(old(self).operand_entries()) + n <= usize::MAX ==> exact_total(
                final(self).operand_entries(),
            ) == exact_total(old(self).operand_entries()) + n,
            keys_of(final(self).operand_entries()).to_set() == keys_of(
                old(self).operand_entries(),
            ).to_set().insert(k@),
            forall|x: Seq<u8>|
                #![trigger final(self).operand_count(x)]
                final(self).operand_count(x) == if x == k@ {
                    sat_add(old(self).operand_count(x), n as int)
                } else {
                    old(self).operand_count(x)
                },
    {
        let ghost s0 = self.operand_entries();
        let mut i: usize = 0;
        while i < self.operands.len()
            invariant
                s0 == self.operand_entries(),
                s0 == old(self).operand_entries(),
                old(self).wf(),
                self.operators == old(self).operators,
                self.operands@.len() == s0.len(),
                0 <= i <= s0.len(),
                forall|j: int| 0 <= j < i ==> s0[j].0 != k@,
            decreases s0.len() - i,
        {
            if self.operands[i].0 == *k {
                let c = self.operands[i].1;
                let v = c.saturating_add(n);
                let key = k.clone();
                proof {
                    assert(s0[i as int].0 == k@);
                    assert(key@ == k@);
                }
                self.operands.set(i, (key, v));
                proof {
                    assert(self.operand_entries() =~= s0.update(i as int, (s0[i as int].0, v)));
                    lemma_lookup_at(s0, i as int);
                    assert forall|x: Seq<u8>| true implies #[trigger] lookup(
                        self.operand_entries(),
                        x,
                    ) == if x == k@ {
                        sat_add(lookup(s0, x), n as int)
                    } else {
                        lookup(s0, x)
                    } by {
                        lemma_lookup_update(s0, i as int, v, x);
                    }
                    lemma_lookup_update(s0, i as int, v, k@);
                    lemma_exact_total_update(s0, i as int, v);
                    assert(keys_of(self.operand_entries()) =~= keys_of(s0));
                    assert(keys_of(s0)[i as int] == k@);
                    assert(keys_of(s0).to_set() =~= keys_of(s0).to_set().insert(k@));
                }
                return;
            }
            i = i + 1;
        }
        proof {
            lemma_lookup_absent(s0, k@);
        }
        let key = k.clone();
        self.operands.push((key, n));
        proof {
            assert(self.operand_entries() =~= s0.push((k@, n)));
            assert(self.operand_entries().drop_last() =~= s0);
            assert(keys_distinct(self.operand_entries()));
            assert(exact_total(self.operand_entries()) == exact_total(s0) + n);
            assert(keys_of(self.operand_entries()) =~= keys_of(s0).push(k@));
            lemma_push_key_set(keys_of(s0), k@);
        }
    }

    /// Merges the maps of a second space into these: every key of either,
    /// with the two counts added, saturating at `usize::MAX`.
    pub fn merge(&mut self, other: &HalsteadMaps)
        requires
            old(self).wf(),
            other.wf(),
        ensures
            final(self).wf(),
            forall|x: u16|
                keys_of(final(self).operator_entries()).contains(x) ==> keys_of(
                    old(self).operator_entries(),
                ).contains(x) || keys_of(other.operator_entries()).contains(x),
            keys_of(final(self).operator_entries()).to_set() == keys_of(
                old(self).operator_entries(),
            ).to_set() + keys_of(other.operator_entries()).to_set(),
            keys_of(final(self).operand_entries()).to_set() == keys_of(
                old(self).operand_entries(),
            ).to_set() + keys_of(other.operand_entries()).to_set(),
            exact_total(old(self).operator_entries()) + exact_total(other.operator_entries())
                <= usize::MAX ==> exact_total(final(self).operator_entries()) == exact_total(
                old(self).operator_entries(),
            ) + exact_total(other.operator_entries()),
            exact_total(old(self).operand_entries()) + exact_total(other.operand_entries())
                <= usize::MAX ==> exact_total(final(self).operand_entries()) == exact_total(
                old(self).operand_entries(),
            ) + exact_total(other.operand_entries()),
            forall|x: u16|
                #![trigger final(self).operator_count(x)]
                final(self).operator_count(x) == sat_add(
                    old(self).operator_count(x),
                    other.operator_count(x),
                ),
            forall|x: Seq<u8>|
                #![trigger final(self).operand_count(x)]
                final(self).operand_count(x) == sat_add(
                    old(self).operand_count(x),
                    other.operand_count(x),
                ),
    {
        let ghost o = other.operator_entries();
        proof {
            assert(keys_of(o.take(0)).to_set() =~= Set::<u16>::empty());
            assert(keys_of(old(self).operator_entries()).to_set() =~= keys_of(old(self).operator_entries()).to_set() + keys_of(o.take(0)).to_set());
            assert forall|x: u16| true implies #[trigger] old(self).operator_count(x) == sat_add(
                old(self).operator_count(x),
                lookup(o.take(0), x),
            ) by {
                lemma_lookup_nonneg(old(self).operator_entries(), x);
                assert(o.take(0).len() == 0);
            }
        }
        let mut j: usize = 0;
        while j < other.operators.len()
            invariant
                self.wf(),
                other.wf(),
                o == other.operator_entries(),
                0 <= j <= o.len(),
                self.operand_entries() == old(self).operand_entries(),
                forall|x: u16|
                    keys_of(self.operator_entries()).contains(x) ==> keys_of(
                        old(self).operator_entries(),
                    ).contains(x) || keys_of(o).contains(x),
                keys_of(self.operator_entries()).to_set() == keys_of(old(self).operator_entries()).to_set()
                    + keys_of(o.take(j as int)).to_set(),
                exact_total(old(self).operator_entries()) + exact_total(o) <= usize::MAX
                    ==> exact_total(self.operator_entries()) == exact_total(
                    old(self).operator_entries(),
                ) + exact_total(o.take(j as int)),
                forall|x: u16|
                    #![trigger self.operator_count(x)]
                    self.operator_count(x) == sat_add(
                        old(self).operator_count(x),
                        lookup(o.take(j as int), x),
                    ),
            decreases o.len() - j,
        {
            let k = other.operators[j].0;
            let n = other.operators[j].1;
            let ghost before = *self;
            proof {
                lemma_exact_total_prefix(o, j as int);
                lemma_exact_total_nonneg(o.take(j as int));
            }
            self.add_operator(k, n);
            proof {
                assert(keys_of(o.take(j + 1)) =~= keys_of(o.take(j as int)).push(k));
                lemma_push_key_set(keys_of(o.take(j as int)), k);
                assert(keys_of(self.operator_entries()).to_set() =~= keys_of(old(self).operator_entries()).to_set()
                    + keys_of(o.take(j + 1)).to_set());
                assert(keys_of(o)[j as int] == k);
                assert forall|x: u16| keys_of(self.operator_entries()).contains(x) implies keys_of(
                    old(self).operator_entries(),
                ).contains(x) || keys_of(o).contains(x) by {
                    if x == k {
                        assert(keys_of(o)[j as int] == x);
                    } else {
                        assert(keys_of(before.operator_entries()).contains(x));
                    }
                }
                assert forall|x: u16| true implies #[trigger] self.operator_count(x) == sat_add(
                    old(self).operator_count(x),
                    lookup(o.take(j + 1), x),
                ) by {
                    lemma_prefix_step(o, j as int, x);
                    assert(before.operator_count(x) == sat_add(
                        old(self).operator_count(x),
                        lookup(o.take(j as int), x),
                    ));
                    assert(0 <= lookup(o.take(j as int), x)) by {
                        lemma_lookup_nonneg(o.take(j as int), x);
                    }
                    lemma_lookup_nonneg(old(self).operator_entries(), x);
                }
            }
            j = j + 1;
        }
        assert(o.take(o.len() as int) =~= o);
        let ghost d = other.operand_entries();
        proof {
            assert(d.take(0) =~= Seq::<(Seq<u8>, usize)>::empty());
            assert(o.take(0) =~= Seq::<(u16, usize)>::empty());
            assert(keys_of(d.take(0)).to_set() =~= Set::<Seq<u8>>::empty());
            assert(keys_of(self.operand_entries()).to_set() =~= keys_of(self.operand_entries()).to_set() + keys_of(d.take(0)).to_set());
        }
        let ghost mid = *self;
        proof {
            assert forall|x: Seq<u8>| true implies #[trigger] mid.operand_count(x) == sat_add(
                mid.operand_count(x),
                lookup(d.take(0), x),
            ) by {
                lemma_lookup_nonneg(mid.operand_entries(), x);
                assert(d.take(0).len() == 0);
            }
        }
        let mut j: usize = 0;
        while j < other.operands.len()
            invariant
                self.wf(),
                other.wf(),
                d == other.operand_entries(),
                d.len() == other.operands@.len(),
                0 <= j <= d.len(),
                forall|x: u16|
                    #![trigger self.operator_count(x)]
                    self.operator_count(x) == mid.operator_count(x),
                self.operator_entries() == mid.operator_entries(),
                mid.operand_entries() == old(self).operand_entries(),
                keys_of(self.operand_entries()).to_set() == keys_of(mid.operand_entries()).to_set()
                    + keys_of(d.take(j as int)).to_set(),
                exact_total(old(self).operand_entries()) + exact_total(d) <= usize::MAX
                    ==> exact_total(self.operand_entries()) == exact_total(
                    old(self).operand_entries(),
                ) + exact_total(d.take(j as int)),
                forall|x: Seq<u8>|
                    #![trigger self.operand_count(x)]
                    self.operand_count(x) == sat_add(
                        mid.operand_count(x),
                        lookup(d.take(j as int), x),
                    ),
            decreases d.len() - j,
        {
            let ghost before = *self;
            proof {
                lemma_exact_total_prefix(d, j as int);
                lemma_exact_total_nonneg(d.take(j as int));
                assert(d[j as int] == operand_view(other.operands@[j as int]));
            }
            self.add_operand(&other.operands[j].0, other.operands[j].1);
            proof {
                assert(keys_of(d.take(j + 1)) =~= keys_of(d.take(j as int)).push(d[j as int].0));
                lemma_push_key_set(keys_of(d.take(j as int)), d[j as int].0);
                assert(keys_of(self.operand_entries()).to_set() =~= keys_of(mid.operand_entries()).to_set()
                    + keys_of(d.take(j + 1)).to_set());
                assert forall|x: u16| true implies #[trigger] self.operator_count(x)
                    == mid.operator_count(x) by {
                    assert(before.operator_count(x) == mid.operator_count(x));
                }
                assert(d[j as int] == operand_view(other.operands@[j as int]));
                assert forall|x: Seq<u8>| true implies #[trigger] self.operand_count(x) == sat_add(
                    mid.operand_count(x),
                    lookup(d.take(j + 1), x),
                ) by {
                    lemma_prefix_step(d, j as int, x);
                    assert(before.operand_count(x) == sat_add(
                        mid.operand_count(x),
                        lookup(d.take(j as int), x),
                    ));
                    lemma_lookup_nonneg(d.take(j as int), x);
                    lemma_lookup_nonneg(mid.operand_entries(), x);
                }
            }
            j = j + 1;
        }
        assert(d.take(d.len() as int) =~= d);
        assert(keys_of(self.operator_entries()).to_set() =~= keys_of(old(self).operator_entries()).to_set()
            + keys_of(other.operator_entries()).to_set());
    }

    /// The four counts the token metric is derived from: distinct operators,
    /// operator occurrences, distinct operands, operand occurrences.
    pub open spec fn counts(&self) -> (int, int, int, int) {
        (
            self.operator_entries().len() as int,
            sat_total(self.operator_entries()),
            self.operand_entries().len() as int,
            sat_total(self.operand_entries()),
        )
    }

    /// Computes the token metric of a space from its merged maps.
    pub fn finalize(&self, stats: &mut Stats)
        ensures
            final(stats).counts() == self.counts(),
    {
        let mut n_ops: usize = 0;
        let mut i: usize = 0;
        while i < self.operators.len()
            invariant
                0 <= i <= self.operators@.len(),
                n_ops == sat_total(self.operator_entries().take(i as int)),
            decreases self.operators@.len() - i,
        {
            proof {
                assert(self.operator_entries().take(i + 1).drop_last()
                    =~= self.operator_entries().take(i as int));
            }
            n_ops = n_ops.saturating_add(self.operators[i].1);
            i = i + 1;
        }
        assert(self.operator_entries().take(i as int) =~= self.operator_entries());
        let mut n_opds: usize = 0;
        let mut i: usize = 0;
        while i < self.operands.len()
            invariant
                0 <= i <= self.operands@.len(),
                self.operand_entries().len() == self.operands@.len(),
                n_opds == sat_total(self.operand_entries().take(i as int)),
            decreases self.operands@.len() - i,
        {
            proof {
                assert(self.operand_entries().take(i + 1).drop_last()
                    =~= self.operand_entries().take(i as int));
                assert(self.operand_entries()[i as int].1 == self.operands@[i as int].1);
            }
            n_opds = n_opds.saturating_add(self.operands[i].1);
            i = i + 1;
        }
        assert(self.operand_entries().take(i as int) =~= self.operand_entries());
        *stats = Stats {
            u_operators: self.operators.len(),
            operators: n_ops,
            u_operands: self.operands.len(),
            operands: n_opds,
        };
    }

    /// The distinct operators, in the order they were first met.
    pub fn operator_keys(&self) -> (r: Vec<u16>)
        ensures
            r@ == keys_of(self.operator_entries()),
    {
        let mut r: Vec<u16> = Vec::new();
        let mut i: usize = 0;
        while i < self.operators.len()
            invariant
                0 <= i <= self.operators@.len(),
                r@ == keys_of(self.operator_entries().take(i as int)),
            decreases self.operators@.len() - i,
        {
            r.push(self.operators[i].0);
            proof {
                assert(keys_of(self.operator_entries().take(i + 1))
                    =~= keys_of(self.operator_entries().take(i as int)).push(self.operators@[i as int].0));
            }
            i = i + 1;
        }
        assert(self.operator_entries().take(i as int) =~= self.operator_entries());
        r
    }

    /// The distinct operands, in the order they were first met.
    pub fn operand_keys(&self) -> (r: Vec<Vec<u8>>)
        ensures
            r@.len() == self.operand_entries().len(),
            forall|j: int| 0 <= j < r@.len() ==> #[trigger] r@[j]@ == self.operand_entries()[j].0,
    {
        let mut r: Vec<Vec<u8>> = Vec::new();
        let mut i: usize = 0;
        while i < self.operands.len()
            invariant
                0 <= i <= self.operands@.len(),
                self.operand_entries().len() == self.operands@.len(),
                r@.len() == i,
                forall|j: int| 0 <= j < i ==> #[trigger] r@[j]@ == self.operand_entries()[j].0,
            decreases self.operands@.len() - i,
        {
            let k = self.operands[i].0.clone();
            r.push(k);
            i = i + 1;
        }
        r
    }
}

/// The `Halstead` metric of a space: distinct and total operators and
/// operands. The measures derived from them (volume, difficulty, effort,
/// time, bugs) are real-valued and left to the presentation layer.
#[derive(Debug, Clone, Copy)]
pub struct Stats {
    u_operators: usize,
    operators: usize,
    u_operands: usize,
    operands: usize,
}

impl Stats {
    /// Distinct operators, operator occurrences, distinct operands, operand
    /// occurrences.
    pub closed spec fn counts(&self) -> (int, int, int, int) {
        (self.u_operators as int, self.operators as int, self.u_operands as int, self.operands as int)
    }

    /// All counts zero.
    pub fn new() -> (r: Stats)
        ensures
            r.counts() == (0int, 0int, 0int, 0int),
    {
        Stats { u_operators: 0, operators: 0, u_operands: 0, operands: 0 }
    }

    /// Number of distinct operators (`n1`).
    pub fn u_operators(&self) -> (r: usize)
        ensures
            r == self.counts().0,
    {
        self.u_operators
    }

    /// Number of operator occurrences (`N1`).
    pub fn operators(&self) -> (r: usize)
        ensures
            r == self.counts().1,
    {
        self.operators
    }

    /// Number of distinct operands (`n2`).
    pub fn u_operands(&self) -> (r: usize)
        ensures
            r == self.counts().2,
    {
        self.u_operands
    }

    /// Number of operand occurrences (`N2`).
    pub fn operands(&self) -> (r: usize)
        ensures
            r == self.counts().3,
    {
        self.operands
    }

    /// Program length `N1 + N2`, saturated at `usize::MAX`.
    pub fn length(&self) -> (r: usize)
        ensures
            r == sat_add(self.counts().1, self.counts().3),
    {
        self.operators.saturating_add(self.operands)
    }

    /// Vocabulary `n1 + n2`, saturated at `usize::MAX`.
    pub fn vocabulary(&self) -> (r: usize)
        ensures
            r == sat_add(self.counts().0, self.counts().2),
    {
        self.u_operators.saturating_add(self.u_operands)
    }
}

impl Default for Stats {
    fn default() -> (r: Stats)
        ensures
            r.counts() == (0int, 0int, 0int, 0int),
    {
        Stats::new()
    }
}

/// Finalizing the same maps twice gives the same token metric.
pub proof fn lemma_finalize_idempotent(maps: HalsteadMaps, first: Stats, second: Stats)
    requires
        first.counts() == maps.counts(),
        second.counts() == maps.counts(),
    ensures
        first.counts() == second.counts(),
        first == second,
{
    assert(first == second);
}

} // verus!
