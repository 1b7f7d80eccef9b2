use vstd::prelude::*;

verus! {

/// One measurement round: the latency in milliseconds of each node that answered.
/// A node that is absent did not answer in that round.
pub type Round = Vec<(String, u64)>;

/// A latency sample as the contracts see it: node name and milliseconds.
pub type SampleModel = (Seq<char>, u64);

/// All samples of all rounds, in round order.
pub open spec fn all_samples(rounds: Seq<Seq<SampleModel>>) -> Seq<SampleModel>
    decreases rounds.len(),
{
    if rounds.len() == 0 {
        seq![]
    } else {
        all_samples(rounds.drop_last()) + rounds.last()
    }
}

/// The names that occur among the samples, each once, in order of first occurrence.
pub open spec fn node_names(s: Seq<SampleModel>) -> Seq<Seq<char>>
    decreases s.len(),
{
    if s.len() == 0 {
        seq![]
    } else {
        let prev = node_names(s.drop_last());
        if prev.contains(s.last().0) {
            prev
        } else {
            prev.push(s.last().0)
        }
    }
}

/// How many samples belong to node `n`.
pub open spec fn sample_count(s: Seq<SampleModel>, n: Seq<char>) -> nat
    decreases s.len(),
{
    if s.len() == 0 {
        0
    } else {
        sample_count(s.drop_last(), n) + if s.last().0 == n {
            1nat
        } else {
            0nat
        }
    }
}

/// The sum of the latencies of node `n`.
pub open spec fn sample_sum(s: Seq<SampleModel>, n: Seq<char>) -> nat
    decreases s.len(),
{
    if s.len() == 0 {
        0
    } else {
        sample_sum(s.drop_last(), n) + if s.last().0 == n {
            s.last().1 as nat
        } else {
            0nat
        }
    }
}

/// Mean latency of node `n`, truncated; zero for a node without samples.
pub open spec fn mean_latency(s: Seq<SampleModel>, n: Seq<char>) -> nat {
    if sample_count(s, n) == 0 {
        0
    } else {
        sample_sum(s, n) / sample_count(s, n)
    }
}

/// The samples of a list of rounds, as the contracts see them.
pub open spec fn samples_of(rounds: &Vec<Round>) -> Seq<SampleModel> {
    all_samples(rounds.deep_view())
}

/// `n` is the node of least mean latency, and no node seen before it has the same mean.
pub open spec fn is_best_node(s: Seq<SampleModel>, n: Seq<char>) -> bool {
    let names = node_names(s);
    exists|i: int|
        0 <= i < names.len() && names[i] == n && (forall|j: int|
            0 <= j < names.len() ==> mean_latency(s, names[i]) <= mean_latency(s, names[j]))
            && (forall|j: int| 0 <= j < i ==> mean_latency(s, names[j]) > mean_latency(s, names[i]))
}

/// A node is stable when it has more samples than half the number of nodes seen; where
/// each round names a node at most once, that is more rounds answered.
pub open spec fn is_stable(s: Seq<SampleModel>, n: Seq<char>) -> bool {
    sample_count(s, n) > node_names(s).len() / 2
}

/// Each round names a node at most once, as a map from node to latency does.
pub open spec fn one_sample_per_node(rounds: Seq<Seq<SampleModel>>) -> bool {
    forall|r: int, i: int, j: int|
        0 <= r < rounds.len() && 0 <= i < j < rounds[r].len() ==> (#[trigger] rounds[r][i]).0
            != (#[trigger] rounds[r][j]).0
}

/// Node `n` answered in this round.
pub open spec fn answered_in(round: Seq<SampleModel>, n: Seq<char>) -> bool {
    exists|i: int| 0 <= i < round.len() && (#[trigger] round[i]).0 == n
}

/// The number of rounds in which node `n` answered.
pub open spec fn rounds_answered(rounds: Seq<Seq<SampleModel>>, n: Seq<char>) -> nat
    decreases rounds.len(),
{
    if rounds.len() == 0 {
        0
    } else {
        rounds_answered(rounds.drop_last(), n) + if answered_in(rounds.last(), n) {
            1nat
        } else {
            0nat
        }
    }
}

proof fn lemma_count_concat(a: Seq<SampleModel>, b: Seq<SampleModel>, n: Seq<char>)
    ensures
        sample_count(a + b, n) == sample_count(a, n) + sample_count(b, n),
    decreases b.len(),
{
    if b.len() == 0 {
        assert(a + b =~= a);
    } else {
        lemma_count_concat(a, b.drop_last(), n);
        assert((a + b).drop_last() =~= a + b.drop_last());
        assert((a + b).last() == b.last());
    }
}

proof fn lemma_count_in_round(round: Seq<SampleModel>, n: Seq<char>)
    requires
        forall|i: int, j: int| 0 <= i < j < round.len() ==> (#[trigger] round[i]).0 != (#[trigger] round[j]).0,
    ensures
        sample_count(round, n) == if answered_in(round, n) {
            1nat
        } else {
            0nat
        },
    decreases round.len(),
{
    if round.len() > 0 {
        let prev = round.drop_last();
        assert forall|i: int, j: int| 0 <= i < j < prev.len() implies (#[trigger] prev[i]).0 != (#[trigger] prev[j]).0 by {
            assert(prev[i] == round[i] && prev[j] == round[j]);
        }
        lemma_count_in_round(prev, n);
        if round.last().0 == n {
            assert(answered_in(round, n));
            if answered_in(prev, n) {
                let i = choose|i: int| 0 <= i < prev.len() && (#[trigger] prev[i]).0 == n;
                assert(round[i] == prev[i]);
                assert(round[round.len() - 1] == round.last());
            }
        } else {
            if answered_in(round, n) {
                let i = choose|i: int| 0 <= i < round.len() && (#[trigger] round[i]).0 == n;
                assert(prev[i] == round[i]);
            }
            if answered_in(prev, n) {
                let i = choose|i: int| 0 <= i < prev.len() && (#[trigger] prev[i]).0 == n;
                assert(round[i] == prev[i]);
            }
        }
    }
}

/// Where each round names a node at most once, a node's number of samples is the number
/// of rounds in which it answered.
pub proof fn lemma_count_is_rounds_answered(rounds: Seq<Seq<SampleModel>>, n: Seq<char>)
    requires
        one_sample_per_node(rounds),
    ensures
        sample_count(all_samples(rounds), n) == rounds_answered(rounds, n),
    decreases rounds.len(),
{
    if rounds.len() > 0 {
        let prev = rounds.drop_last();
        assert forall|r: int, i: int, j: int|
            0 <= r < prev.len() && 0 <= i < j < prev[r].len() implies (#[trigger] prev[r][i]).0
                != (#[trigger] prev[r][j]).0 by {
            assert(prev[r] == rounds[r]);
        }
        lemma_count_is_rounds_answered(prev, n);
        let last = rounds.last();
        assert forall|i: int, j: int| 0 <= i < j < last.len() implies (#[trigger] last[i]).0 != (#[trigger] last[j]).0 by {
            assert(rounds[rounds.len() - 1] == last);
            assert(rounds[rounds.len() - 1][i] == last[i]);
            assert(rounds[rounds.len() - 1][j] == last[j]);
        }
        lemma_count_in_round(last, n);
        lemma_count_concat(all_samples(prev), last, n);
    }
}

pub proof fn lemma_names_contains(s: Seq<SampleModel>, n: Seq<char>)
    ensures
        node_names(s).contains(n) <==> sample_count(s, n) > 0,
    decreases s.len(),
{
    if s.len() > 0 {
        let prev = node_names(s.drop_last());
        let l = s.last().0;
        lemma_names_contains(s.drop_last(), n);
        if !prev.contains(l) {
            if prev.push(l).contains(n) {
                let i = choose|i: int| 0 <= i < prev.push(l).len() && prev.push(l)[i] == n;
                if i < prev.len() {
                    assert(prev[i] == n);
                }
            }
            if prev.contains(n) {
                let i = choose|i: int| 0 <= i < prev.len() && prev[i] == n;
                assert(prev.push(l)[i] == n);
            }
            if l == n {
                assert(prev.push(l)[prev.len() as int] == n);
            }
        }
    }
}

pub proof fn lemma_names_distinct(s: Seq<SampleModel>)
    ensures
        node_names(s).no_duplicates(),
    decreases s.len(),
{
    if s.len() > 0 {
        lemma_names_distinct(s.drop_last());
    }
}

proof fn lemma_sample_bounds(s: Seq<SampleModel>, n: Seq<char>)
    ensures
        sample_count(s, n) <= s.len(),
        sample_sum(s, n) <= sample_count(s, n) * 0xFFFF_FFFF_FFFF_FFFFnat,
    decreases s.len(),
{
    if s.len() > 0 {
        lemma_sample_bounds(s.drop_last(), n);
    }
}

proof fn lemma_push_sample(s: Seq<SampleModel>, x: SampleModel)
    ensures
        s.push(x).drop_last() == s,
        s.push(x).last() == x,
{
    assert(s.push(x).drop_last() =~= s);
}

proof fn lemma_take_next_round(r: Seq<Seq<SampleModel>>, i: int)
    requires
        0 <= i < r.len(),
    ensures
        all_samples(r.take(i + 1)) == all_samples(r.take(i)) + r[i],
{
    assert(r.take(i + 1).drop_last() =~= r.take(i));
}

/// Per-node statistics in order of first occurrence: names, latency sums and sample counts.
pub struct NodeStats {
    pub names: Vec<String>,
    pub sums: Vec<u128>,
    pub counts: Vec<usize>,
}

impl NodeStats {
    /// The statistics describe exactly the samples `s`.
    pub open spec fn describes(&self, s: Seq<SampleModel>) -> bool {
        &&& self.names.deep_view() == node_names(s)
        &&& self.sums@.len() == self.names@.len()
        &&& self.counts@.len() == self.names@.len()
        &&& forall|k: int|
            0 <= k < self.names@.len() ==> {
                &&& self.sums@[k] == sample_sum(s, node_names(s)[k])
                &&& self.counts@[k] == sample_count(s, node_names(s)[k])
            }
    }

    /// Gathers the samples of all rounds per node.
    pub fn collect(rounds: &Vec<Round>) -> (r: NodeStats)
        requires
            samples_of(rounds).len() <= usize::MAX,
        ensures
            r.describes(samples_of(rounds)),
    {
        let ghost rd = rounds.deep_view();
        let mut st = NodeStats { names: Vec::new(), sums: Vec::new(), counts: Vec::new() };
        let ghost mut cur: Seq<SampleModel> = seq![];
        assert(st.names.deep_view() =~= node_names(cur));
        let mut i: usize = 0;
        while i < rounds.len()
            invariant
                rd == rounds.deep_view(),
                0 <= i <= rounds@.len(),
                cur == all_samples(rd.take(i as int)),
                st.describes(cur),
                all_samples(rd).len() <= usize::MAX,
            decreases rounds@.len() - i,
        {
            let round = &rounds[i];
            assert(rd[i as int] == round.deep_view());
            let mut j: usize = 0;
            proof {
                assert(round.deep_view().take(0) =~= seq![]);
                assert(cur + round.deep_view().take(0) =~= cur);
                lemma_prefix_len(rd, i as int);
            }
            while j < round.len()
                invariant
                    rd == rounds.deep_view(),
                    0 <= i < rounds@.len(),
                    round == rounds@[i as int],
                    rd[i as int] == round.deep_view(),
                    0 <= j <= round@.len(),
                    cur == all_samples(rd.take(i as int)) + round.deep_view().take(j as int),
                    st.describes(cur),
                    all_samples(rd.take(i as int)).len() + round@.len() <= usize::MAX,
                decreases round@.len() - j,
            {
                let name = round[j].0.clone();
                let lat = round[j].1;
                let ghost x: SampleModel = (name@, lat);
                assert(round.deep_view()[j as int] == x);
                let ghost next = cur.push(x);
                assert(round.deep_view().take(j + 1) =~= round.deep_view().take(j as int).push(x));
                proof {
                    lemma_push_sample(cur, x);
                    lemma_names_distinct(cur);
                }
                let mut k: usize = 0;
                let mut found = false;
                while !found && k < st.names.len()
                    invariant
                        0 <= k <= st.names@.len(),
                        st.names.deep_view() == node_names(cur),
                        !found ==> forall|m: int| 0 <= m < k ==> node_names(cur)[m] != name@,
                        found ==> k < st.names@.len() && node_names(cur)[k as int] == name@,
                    decreases st.names@.len() - k + if found { 0int } else { 1int },
                {
                    if st.names[k] == name {
                        found = true;
                    } else {
                        k = k + 1;
                    }
                }
                proof {
                    lemma_sample_bounds(next, name@);
                    lemma_sample_bounds(cur, name@);
                    lemma_names_contains(cur, name@);
                    lemma_names_contains(next, name@);
                    assert(next.len() <= usize::MAX);
                }
                let ghost old_sums = st.sums@;
                let ghost old_counts = st.counts@;
                let ghost names_cur = node_names(cur);
                assert(st.names.deep_view().len() == st.names@.len());
                if found {
                    assert(names_cur[k as int] == name@);
                    assert(node_names(cur).contains(name@));
                    let s = st.sums[k] + lat as u128;
                    let c = st.counts[k] + 1;
                    st.sums.set(k, s);
                    st.counts.set(k, c);
                    assert(node_names(next) == node_names(cur));
                } else {
                    assert forall|m: int| 0 <= m < names_cur.len() implies names_cur[m] != name@ by {}
                    assert(!node_names(cur).contains(name@));
                    st.names.push(name);
                    st.sums.push(lat as u128);
                    st.counts.push(1);
                    assert(node_names(next) == node_names(cur).push(name@));
                    assert(st.names.deep_view() =~= node_names(next));
                }
                proof {
                    assert forall|m: int| 0 <= m < st.names@.len() implies {
                        &&& st.sums@[m] == sample_sum(next, node_names(next)[m])
                        &&& st.counts@[m] == sample_count(next, node_names(next)[m])
                    } by {
                        if m < names_cur.len() {
                            assert(node_names(next)[m] == names_cur[m]);
                            if names_cur[m] != name@ {
                                assert(sample_sum(next, names_cur[m]) == sample_sum(cur, names_cur[m]));
                                assert(sample_count(next, names_cur[m]) == sample_count(cur, names_cur[m]));
                            } else {
                                assert(found);
                                assert(m == k);
                                assert(st.sums@[m] == old_sums[m] + lat);
                                assert(st.counts@[m] == old_counts[m] + 1);
                                assert(sample_sum(next, name@) == sample_sum(cur, name@) + lat);
                                assert(sample_count(next, name@) == sample_count(cur, name@) + 1);
                            }
                            assert(old_sums[m] == sample_sum(cur, names_cur[m]));
                            assert(old_counts[m] == sample_count(cur, names_cur[m]));
                        } else {
                            assert(node_names(next)[m] == name@);
                            assert(sample_count(cur, name@) == 0);
                            assert(sample_sum(next, name@) == sample_sum(cur, name@) + lat);
                        }
                    }
                    cur = next;
                }
                j = j + 1;
            }
            proof {
                assert(round.deep_view().take(j as int) =~= round.deep_view());
                lemma_take_next_round(rd, i as int);
            }
            i = i + 1;
        }
        assert(rd.take(i as int) =~= rd);
        st
    }
}

impl NodeStats {
    /// Mean latency of the `k`-th node, truncated.
    fn mean_at(&self, k: usize, Ghost(s): Ghost<Seq<SampleModel>>) -> (r: u128)
        requires
            self.describes(s),
            k < self.names@.len(),
        ensures
            r == mean_latency(s, node_names(s)[k as int]),
    {
        proof {
            lemma_names_contains(s, node_names(s)[k as int]);
            assert(node_names(s).contains(node_names(s)[k as int]));
        }
        self.sums[k] / (self.counts[k] as u128)
    }
}

/// The nodes that answered in at least one round, each once, in order of first answer.
pub fn get_all_tested_nodes(test_results: &Vec<Round>) -> (r: Vec<String>)
    requires
        samples_of(test_results).len() <= usize::MAX,
    ensures
        r.deep_view() == node_names(samples_of(test_results)),
{
    let st = NodeStats::collect(test_results);
    st.names
}

/// The node of least mean latency over all rounds; among equal means the one that
/// answered first. `None` when no node answered in any round.
pub fn get_top_node(test_results: &Vec<Round>) -> (r: Option<String>)
    requires
        samples_of(test_results).len() <= usize::MAX,
    ensures
        r is None <==> node_names(samples_of(test_results)).len() == 0,
        r matches Some(n) ==> is_best_node(samples_of(test_results), n@),
{
    let ghost s = samples_of(test_results);
    let st = NodeStats::collect(test_results);
    let ghost names = node_names(s);
    assert(st.names.deep_view().len() == st.names@.len());
    if st.names.len() == 0 {
        return None;
    }
    let mut best: usize = 0;
    let mut best_mean = st.mean_at(0, Ghost(s));
    let mut k: usize = 1;
    while k < st.names.len()
        invariant
            st.describes(s),
            names == node_names(s),
            names.len() == st.names@.len(),
            1 <= k <= st.names@.len(),
            best < k,
            best_mean == mean_latency(s, names[best as int]),
            forall|j: int| 0 <= j < k ==> best_mean <= mean_latency(s, names[j]),
            forall|j: int| 0 <= j < best ==> mean_latency(s, names[j]) > best_mean,
        decreases st.names@.len() - k,
    {
        let m = st.mean_at(k, Ghost(s));
        if m < best_mean {
            best = k;
            best_mean = m;
        }
        k = k + 1;
    }
    let r = st.names[best].clone();
    assert(r@ == names[best as int]);
    Some(r)
}

proof fn lemma_insert_index_distinct(v: Seq<usize>, p: int, x: usize)
    requires
        0 <= p <= v.len(),
        v.no_duplicates(),
        !v.contains(x),
    ensures
        v.insert(p, x).no_duplicates(),
        forall|y: usize| v.insert(p, x).contains(y) <==> (v.contains(y) || y == x),
{
    v.insert_ensures(p, x);
    let w = v.insert(p, x);
    assert forall|a: int, b: int| 0 <= a < w.len() && 0 <= b < w.len() && a != b implies w[a] != w[b] by {
        if a != p && b != p {
            let a0 = if a < p { a } else { a - 1 };
            let b0 = if b < p { b } else { b - 1 };
            assert(w[a] == v[a0]);
            assert(w[b] == v[b0]);
        } else if a == p {
            let b0 = if b < p { b } else { b - 1 };
            assert(w[b] == v[b0]);
        } else {
            let a0 = if a < p { a } else { a - 1 };
            assert(w[a] == v[a0]);
        }
    }
    assert forall|y: usize| w.contains(y) <==> (v.contains(y) || y == x) by {
        if w.contains(y) {
            let a = choose|a: int| 0 <= a < w.len() && w[a] == y;
            if a < p {
                assert(v[a] == y);
            } else if a > p {
                assert(v[a - 1] == y);
            }
        }
        if v.contains(y) {
            let a = choose|a: int| 0 <= a < v.len() && v[a] == y;
            if a < p {
                assert(w[a] == y);
            } else {
                assert(w[a + 1] == y);
            }
        }
        if y == x {
            assert(w[p] == y);
        }
    }
}

/// The stable nodes, ordered by ascending mean latency, equal means in order of first
/// answer. A node is stable when its number of samples exceeds half the number of
/// distinct nodes seen.
#[verifier::loop_isolation(false)]
pub fn get_stable_tested_nodes(test_results: &Vec<Round>) -> (r: Vec<String>)
    requires
        samples_of(test_results).len() <= usize::MAX,
    ensures
        forall|x: Seq<char>|
            r.deep_view().contains(x) <==> (node_names(samples_of(test_results)).contains(x)
                && is_stable(samples_of(test_results), x)),
        r.deep_view().no_duplicates(),
        forall|a: int, b: int|
            0 <= a < b < r@.len() ==> mean_latency(samples_of(test_results), r.deep_view()[a])
                <= mean_latency(samples_of(test_results), r.deep_view()[b]),
        forall|a: int, b: int, i: int, j: int|
            0 <= a < b < r@.len() && 0 <= i < node_names(samples_of(test_results)).len() && 0 <= j
                < node_names(samples_of(test_results)).len() && node_names(
                samples_of(test_results),
            )[i] == r.deep_view()[a] && node_names(samples_of(test_results))[j]
                == r.deep_view()[b] && mean_latency(samples_of(test_results), r.deep_view()[a])
                == mean_latency(samples_of(test_results), r.deep_view()[b]) ==> i < j,
{
    let ghost s = samples_of(test_results);
    let st = NodeStats::collect(test_results);
    let ghost names = node_names(s);
    proof {
        lemma_names_distinct(s);
    }
    assert(st.names.deep_view().len() == st.names@.len());
    let half = st.names.len() / 2;
    let mut order: Vec<usize> = Vec::new();
    let mut means: Vec<u128> = Vec::new();
    let mut k: usize = 0;
    while k < st.names.len()
        invariant
            st.describes(s),
            names == node_names(s),
            names.len() == st.names@.len(),
            half == names.len() / 2,
            0 <= k <= st.names@.len(),
            order@.len() == means@.len(),
            order@.no_duplicates(),
            forall|q: int|
                0 <= q < order@.len() ==> {
                    &&& #[trigger] order@[q] < k
                    &&& means@[q] == mean_latency(s, names[order@[q] as int])
                    &&& is_stable(s, names[order@[q] as int])
                },
            forall|m: usize| m < k && is_stable(s, names[m as int]) ==> order@.contains(m),
            forall|a: int, b: int| 0 <= a < b < means@.len() ==> means@[a] <= means@[b],
            forall|a: int, b: int|
                0 <= a < b < means@.len() && means@[a] == means@[b] ==> order@[a] < order@[b],
        decreases st.names@.len() - k,
    {
        let ghost pre_order = order@;
        if st.counts[k] > half {
            let m = st.mean_at(k, Ghost(s));
            let mut p: usize = 0;
            while p < means.len() && means[p] <= m
                invariant
                    0 <= p <= means@.len(),
                    forall|q: int| 0 <= q < p ==> means@[q] <= m,
                decreases means@.len() - p,
            {
                p = p + 1;
            }
            proof {
                assert forall|q: int| p <= q < means@.len() implies means@[q] > m by {
                    assert(means@[p as int] > m);
                }
                assert(!order@.contains(k)) by {
                    if order@.contains(k) {
                        let q = choose|q: int| 0 <= q < order@.len() && order@[q] == k;
                    }
                }
                lemma_insert_index_distinct(order@, p as int, k);
                means@.insert_ensures(p as int, m);
                order@.insert_ensures(p as int, k);
            }
            let ghost old_order = order@;
            let ghost old_means = means@;
            order.insert(p, k);
            means.insert(p, m);
            proof {
                assert forall|q: int| 0 <= q < order@.len() implies {
                    &&& order@[q] < k + 1
                    &&& means@[q] == mean_latency(s, names[order@[q] as int])
                    &&& is_stable(s, names[order@[q] as int])
                } by {
                    if q < p {
                        assert(order@[q] == old_order[q]);
                    } else if q > p {
                        assert(order@[q] == old_order[q - 1]);
                        assert(means@[q] == old_means[q - 1]);
                    }
                }
                assert forall|a: int, b: int| 0 <= a < b < means@.len() implies means@[a] <= means@[b] by {
                    if b < p {
                    } else if b == p {
                    } else if a < p {
                        assert(means@[b] == old_means[b - 1]);
                    } else if a == p {
                        assert(means@[b] == old_means[b - 1]);
                    } else {
                        assert(means@[a] == old_means[a - 1]);
                        assert(means@[b] == old_means[b - 1]);
                    }
                }
                assert forall|a: int, b: int|
                    0 <= a < b < means@.len() && means@[a] == means@[b] implies order@[a] < order@[b] by {
                    if b < p {
                        assert(order@[a] == old_order[a]);
                        assert(order@[b] == old_order[b]);
                    } else if b == p {
                        assert(order@[a] == old_order[a]);
                    } else if a < p {
                        assert(means@[b] == old_means[b - 1]);
                        assert(old_means[b - 1] > m);
                    } else if a == p {
                        assert(means@[b] == old_means[b - 1]);
                    } else {
                        assert(order@[a] == old_order[a - 1]);
                        assert(order@[b] == old_order[b - 1]);
                        assert(means@[a] == old_means[a - 1]);
                        assert(means@[b] == old_means[b - 1]);
                    }
                }
            }
        }
        proof {
            assert forall|m: usize| m < k + 1 && is_stable(s, names[m as int]) implies order@.contains(m) by {
                if m < k {
                    assert(pre_order.contains(m));
                } else {
                    assert(st.counts@[k as int] == sample_count(s, names[k as int]));
                }
            }
        }
        k = k + 1;
    }
    let mut r: Vec<String> = Vec::new();
    let mut q: usize = 0;
    while q < order.len()
        invariant
            st.describes(s),
            names == node_names(s),
            names.len() == st.names@.len(),
            names.no_duplicates(),
            order@.len() == means@.len(),
            order@.no_duplicates(),
            forall|i: int|
                0 <= i < order@.len() ==> {
                    &&& #[trigger] order@[i] < names.len()
                    &&& means@[i] == mean_latency(s, names[order@[i] as int])
                },
            0 <= q <= order@.len(),
            r@.len() == q,
            forall|i: int| 0 <= i < q ==> r.deep_view()[i] == names[order@[i] as int],
            forall|a: int, b: int|
                0 <= a < b < means@.len() && means@[a] == means@[b] ==> order@[a] < order@[b],
        decreases order@.len() - q,
    {
        let name = st.names[order[q]].clone();
        let ghost prev = r@;
        let ghost prev_dv = r.deep_view();
        assert(name@ == st.names.deep_view()[order@[q as int] as int]);
        r.push(name);
        proof {
            assert forall|i: int| 0 <= i < q + 1 implies r.deep_view()[i] == names[order@[i] as int] by {
                assert(r.deep_view()[i] == r@[i]@);
                if i < q {
                    assert(r@[i] == prev[i]);
                    assert(prev_dv[i] == prev[i]@);
                }
            }
        }
        q = q + 1;
    }
    proof {
        let rv = r.deep_view();
        assert forall|x: Seq<char>| rv.contains(x) <==> (names.contains(x) && is_stable(s, x)) by {
            if rv.contains(x) {
                let i = choose|i: int| 0 <= i < rv.len() && rv[i] == x;
                assert(names[order@[i] as int] == x);
            }
            if names.contains(x) && is_stable(s, x) {
                let m = choose|m: int| 0 <= m < names.len() && names[m] == x;
                assert(order@.contains(m as usize));
                let i = choose|i: int| 0 <= i < order@.len() && order@[i] == m as usize;
                assert(rv[i] == x);
            }
        }
        assert forall|a: int, b: int| 0 <= a < rv.len() && 0 <= b < rv.len() && a != b implies rv[a] != rv[b] by {
            assert(order@[a] != order@[b]);
        }
        assert forall|a: int, b: int, i: int, j: int|
            0 <= a < b < rv.len() && 0 <= i < names.len() && 0 <= j < names.len() && names[i] == rv[a]
                && names[j] == rv[b] && mean_latency(s, rv[a]) == mean_latency(s, rv[b]) implies i < j by {
            assert(rv[a] == names[order@[a] as int]);
            assert(rv[b] == names[order@[b] as int]);
            assert(i == order@[a] as int);
            assert(j == order@[b] as int);
            assert(means@[a] == means@[b]);
        }
    }
    r
}

proof fn lemma_prefix_len(r: Seq<Seq<SampleModel>>, i: int)
    requires
        0 <= i < r.len(),
    ensures
        all_samples(r.take(i)).len() + r[i].len() <= all_samples(r).len(),
    decreases r.len(),
{
    if i < r.len() - 1 {
        lemma_prefix_len(r.drop_last(), i);
        assert(r.drop_last().take(i) =~= r.take(i));
    } else {
        assert(r.take(i) =~= r.drop_last());
    }
}

} // verus!
