//! The decisions of one beam-search tick: which extensions pass the cut,
//! which trellis node each lands on, how they merge, and which survive.
//!
//! Probability masses stay with the numeric kernel; what it hands in are
//! their order keys (see [`crate::order`]), and what it gets back are the
//! nodes, the merge groups and the ranking.
use vstd::prelude::*;
use crate::config::ALPHABET_SIZE;
use crate::context::Context;
use crate::order::{first_max, is_first_max, lemma_first_max_unique, passes_cut};
use crate::text::{quality_text, quality_to_string, symbols_text, symbols_to_string};
use crate::trellis::Forest;

verus! {

/// One extension of a live beam in a tick.
#[derive(Clone, Copy, Debug, PartialEq, Eq, Structural)]
pub struct Candidate {
    /// Index of the live beam it extends.
    pub source: usize,
    /// The symbol it takes: 0 stays on the beam's node, a base moves to a child.
    pub symbol: u8,
    /// The node it lands on.
    pub node: usize,
}

/// Whether some symbol of some beam passes the cut.
pub open spec fn any_passes(keys: Seq<[u32; 5]>, cut: u32) -> bool {
    exists|i: int, s: int| 0 <= i < keys.len() && 0 <= s < 5 && passes_cut(s, keys[i]@[s], cut)
}

/// Whether symbol `s` of beam `i` is admitted. When nothing passes the cut,
/// the best symbol of the top beam is admitted alone, so that a tick never
/// leaves the search without a beam.
pub open spec fn admits(keys: Seq<[u32; 5]>, cut: u32, i: int, s: int) -> bool {
    if any_passes(keys, cut) {
        passes_cut(s, keys[i]@[s], cut)
    } else {
        i == 0 && is_first_max(keys[0]@, s)
    }
}

/// Number of symbols of one beam that pass the cut.
pub open spec fn row_passes(row: [u32; 5], cut: u32) -> int {
    (if passes_cut(0, row@[0], cut) { 1int } else { 0 }) + (if passes_cut(1, row@[1], cut) {
        1int
    } else {
        0
    }) + (if passes_cut(2, row@[2], cut) { 1int } else { 0 }) + (if passes_cut(
        3,
        row@[3],
        cut,
    ) {
        1int
    } else {
        0
    }) + (if passes_cut(4, row@[4], cut) { 1int } else { 0 })
}

/// Number of symbols of the first `n` beams that pass the cut.
pub open spec fn passes_before(keys: Seq<[u32; 5]>, cut: u32, n: int) -> int
    decreases n,
{
    if n <= 0 {
        0
    } else {
        passes_before(keys, cut, n - 1) + row_passes(keys[n - 1], cut)
    }
}

/// Number of extensions admitted in a tick.
pub open spec fn admitted_count(keys: Seq<[u32; 5]>, cut: u32) -> int {
    if any_passes(keys, cut) {
        passes_before(keys, cut, keys.len() as int)
    } else {
        1
    }
}

/// Decides, for each live beam and symbol, whether the extension is
/// admitted, from the probability keys of each beam and the key of the cut.
pub fn cut_extensions(keys: &Vec<[u32; 5]>, cut: u32) -> (r: Vec<[bool; 5]>)
    requires
        keys@.len() >= 1,
    ensures
        r@.len() == keys@.len(),
        forall|i: int, s: int|
            0 <= i < keys@.len() && 0 <= s < 5 ==> #[trigger] r@[i]@[s] == admits(
                keys@,
                cut,
                i,
                s,
            ),
{
    let mut r: Vec<[bool; 5]> = Vec::new();
    let mut any = false;
    let mut i: usize = 0;
    while i < keys.len()
        invariant
            i <= keys@.len(),
            r@.len() == i,
            forall|j: int, s: int|
                0 <= j < i && 0 <= s < 5 ==> #[trigger] r@[j]@[s] == passes_cut(
                    s,
                    keys@[j]@[s],
                    cut,
                ),
            any <==> exists|j: int, s: int|
                0 <= j < i && 0 <= s < 5 && passes_cut(s, keys@[j]@[s], cut),
        decreases keys@.len() - i,
    {
        let row = keys[i];
        let pass = [row[0] > cut, row[1] >= cut, row[2] >= cut, row[3] >= cut, row[4] >= cut];
        proof {
            assert forall|s: int| 0 <= s < 5 implies #[trigger] pass@[s] == passes_cut(
                s,
                keys@[i as int]@[s],
                cut,
            ) by {}
        }
        if pass[0] || pass[1] || pass[2] || pass[3] || pass[4] {
            any = true;
            proof {
                let s = choose|s: int| 0 <= s < 5 && pass@[s];
                assert(passes_cut(s, keys@[i as int]@[s], cut));
            }
        } else {
            proof {
                assert forall|s: int| 0 <= s < 5 implies !passes_cut(
                    s,
                    keys@[i as int]@[s],
                    cut,
                ) by {
                    assert(!pass@[s]);
                }
            }
        }
        r.push(pass);
        i = i + 1;
    }
    if !any {
        let top = first_max(&keys[0]);
        let mut first = [false, false, false, false, false];
        first.set(top, true);
        let mut n: usize = 0;
        while n < r.len()
            invariant
                n <= r@.len(),
                r@.len() == keys@.len(),
                forall|j: int, s: int|
                    0 <= j < n && 0 <= s < 5 ==> #[trigger] r@[j]@[s] == admits(keys@, cut, j, s),
                forall|j: int, s: int|
                    n <= j < r@.len() && 0 <= s < 5 ==> #[trigger] r@[j]@[s] == passes_cut(
                        s,
                        keys@[j]@[s],
                        cut,
                    ),
                !any_passes(keys@, cut),
                is_first_max(keys@[0]@, top as int),
                forall|s: int| 0 <= s < 5 ==> #[trigger] first@[s] == (s == top),
            decreases r@.len() - n,
        {
            if n == 0 {
                r.set(0, first);
            } else {
                r.set(n, [false, false, false, false, false]);
            }
            proof {
                assert forall|s: int| 0 <= s < 5 implies #[trigger] r@[n as int]@[s] == admits(
                    keys@,
                    cut,
                    n as int,
                    s,
                ) by {
                    if n == 0 && is_first_max(keys@[0]@, s) {
                        if s != top {
                            if s < top {
                                assert(keys@[0]@[s] < keys@[0]@[top as int]);
                            } else {
                                assert(keys@[0]@[top as int] < keys@[0]@[s]);
                            }
                        }
                    }
                }
            }
            n = n + 1;
        }
    }
    r
}

/// Raising the cut never admits more extensions.
pub proof fn lemma_admitted_count_monotone(keys: Seq<[u32; 5]>, low: u32, high: u32)
    requires
        low <= high,
    ensures
        admitted_count(keys, high) <= admitted_count(keys, low),
{
    lemma_passes_before_monotone(keys, low, high, keys.len() as int);
    if any_passes(keys, high) {
        let (i, s) = choose|i: int, s: int|
            0 <= i < keys.len() && 0 <= s < 5 && passes_cut(s, keys[i]@[s], high);
        assert(passes_cut(s, keys[i]@[s], low));
    } else if any_passes(keys, low) {
        let (i, s) = choose|i: int, s: int|
            0 <= i < keys.len() && 0 <= s < 5 && passes_cut(s, keys[i]@[s], low);
        lemma_passes_before_positive(keys, low, keys.len() as int, i, s);
    }
}

proof fn lemma_passes_before_monotone(keys: Seq<[u32; 5]>, low: u32, high: u32, n: int)
    requires
        low <= high,
        n <= keys.len(),
    ensures
        passes_before(keys, high, n) <= passes_before(keys, low, n),
        passes_before(keys, low, n) >= 0,
    decreases n,
{
    if n > 0 {
        lemma_passes_before_monotone(keys, low, high, n - 1);
    }
}

proof fn lemma_passes_before_positive(keys: Seq<[u32; 5]>, cut: u32, n: int, i: int, s: int)
    requires
        0 <= i < n <= keys.len(),
        0 <= s < 5,
        passes_cut(s, keys[i]@[s], cut),
    ensures
        passes_before(keys, cut, n) >= 1,
    decreases n,
{
    lemma_passes_before_monotone(keys, cut, cut, n - 1);
    if i < n - 1 {
        lemma_passes_before_positive(keys, cut, n - 1, i, s);
    }
}

/// Candidate `a` comes before candidate `b` in the order of beams, then
/// of symbols.
pub open spec fn cand_before(a: Candidate, b: Candidate) -> bool {
    a.source < b.source || (a.source == b.source && a.symbol < b.symbol)
}

/// How candidates fold together: the distinct nodes in the order in which
/// they first appear, for each candidate the index of its node there, and
/// for each node the candidate that first lands on it.
#[derive(Clone, Debug)]
pub struct MergePlan {
    pub nodes: Vec<usize>,
    pub group: Vec<usize>,
    pub first: Vec<usize>,
}

/// The plan folds `cands` onto distinct nodes, ordered by first appearance.
pub open spec fn merges(
    cands: Seq<Candidate>,
    nodes: Seq<usize>,
    group: Seq<usize>,
    first: Seq<usize>,
) -> bool {
    &&& group.len() == cands.len()
    &&& first.len() == nodes.len()
    &&& forall|k: int|
        0 <= k < cands.len() ==> #[trigger] group[k] < nodes.len() && nodes[group[k] as int]
            == cands[k].node
    &&& forall|a: int, b: int| 0 <= a < b < nodes.len() ==> nodes[a] != nodes[b]
    &&& forall|g: int|
        0 <= g < nodes.len() ==> #[trigger] first[g] < cands.len() && group[first[g] as int] == g
    &&& forall|k: int| 0 <= k < cands.len() ==> first[#[trigger] group[k] as int] <= k
    &&& forall|a: int, b: int| 0 <= a < b < nodes.len() ==> first[a] < first[b]
}

/// Groups candidates that land on the same node. The masses of a group are
/// the sums of the masses of its candidates.
pub fn merge_candidates(cands: &Vec<Candidate>) -> (r: MergePlan)
    ensures
        merges(cands@, r.nodes@, r.group@, r.first@),
{
    let mut nodes: Vec<usize> = Vec::new();
    let mut group: Vec<usize> = Vec::new();
    let mut first: Vec<usize> = Vec::new();
    let mut k: usize = 0;
    while k < cands.len()
        invariant
            k <= cands@.len(),
            merges(cands@.subrange(0, k as int), nodes@, group@, first@),
            nodes@.len() <= k,
            forall|g: int| 0 <= g < first@.len() ==> #[trigger] first@[g] < k,
        decreases cands@.len() - k,
    {
        let node = cands[k].node;
        let mut j: usize = 0;
        while j < nodes.len() && nodes[j] != node
            invariant
                j <= nodes@.len(),
                forall|m: int| 0 <= m < j ==> nodes@[m] != node,
            decreases nodes@.len() - j,
        {
            j = j + 1;
        }
        let ghost prev = cands@.subrange(0, k as int);
        let ghost next = cands@.subrange(0, k + 1);
        assert(next =~= prev.push(cands@[k as int]));
        let ghost old_group = group@;
        let ghost old_nodes = nodes@;
        let ghost old_first = first@;
        if j == nodes.len() {
            nodes.push(node);
            first.push(k);
        }
        group.push(j);
        proof {
            assert(group@ == old_group.push(j));
            assert forall|m: int| 0 <= m < next.len() implies #[trigger] group@[m] < nodes@.len()
                && nodes@[group@[m] as int] == next[m].node by {
                if m < k {
                    assert(next[m] == prev[m]);
                    assert(old_group[m] < old_nodes.len());
                }
            }
            assert forall|a: int, b: int| 0 <= a < b < nodes@.len() implies nodes@[a]
                != nodes@[b] by {
                if b == old_nodes.len() {
                    assert(nodes@[a] == old_nodes[a]);
                }
            }
            assert forall|g: int| 0 <= g < nodes@.len() implies #[trigger] first@[g]
                < next.len() && group@[first@[g] as int] == g by {
                if g < old_nodes.len() {
                    assert(first@[g] == old_first[g]);
                    assert(old_first[g] < k);
                }
            }
            assert forall|m: int| 0 <= m < next.len() implies first@[#[trigger] group@[m] as int]
                <= m by {
                if m < k {
                    assert(old_group[m] < old_nodes.len());
                    assert(first@[old_group[m] as int] == old_first[old_group[m] as int]);
                } else if j < old_nodes.len() {
                    assert(first@[j as int] == old_first[j as int]);
                }
            }
        }
        k = k + 1;
    }
    assert(cands@.subrange(0, cands@.len() as int) =~= cands@);
    MergePlan { nodes, group, first }
}

/// Group `a` ranks above group `b`: a larger key, or an equal key and an
/// earlier place.
pub open spec fn ranks_above(keys: Seq<u32>, a: int, b: int) -> bool {
    keys[a] > keys[b] || (keys[a] == keys[b] && a < b)
}

/// `r` lists the best `min(keys.len(), size)` groups, best first.
pub open spec fn is_top_ranking(keys: Seq<u32>, size: int, r: Seq<usize>) -> bool {
    &&& r.len() == if keys.len() < size {
        keys.len() as int
    } else {
        size
    }
    &&& forall|a: int| 0 <= a < r.len() ==> #[trigger] r[a] < keys.len()
    &&& forall|a: int, b: int| 0 <= a < b < r.len() ==> ranks_above(keys, r[a] as int, r[b] as int)
    &&& forall|a: int, g: int|
        #![trigger r[a], keys[g]]
        0 <= a < r.len() && 0 <= g < keys.len() && !r.contains(g as usize) ==> ranks_above(
            keys,
            r[a] as int,
            g,
        )
}

/// Ranks groups by key, best first, an earlier group first on equal keys,
/// and keeps at most `size` of them.
pub fn rank_groups(keys: &Vec<u32>, size: usize) -> (r: Vec<usize>)
    ensures
        is_top_ranking(keys@, size as int, r@),
{
    let n = keys.len();
    let want: usize = if n < size {
        n
    } else {
        size
    };
    let mut taken: Vec<bool> = Vec::new();
    let mut t: usize = 0;
    while t < n
        invariant
            t <= n,
            n == keys@.len(),
            taken@.len() == t,
            forall|g: int| 0 <= g < t ==> !#[trigger] taken@[g],
        decreases n - t,
    {
        taken.push(false);
        t = t + 1;
    }
    let mut r: Vec<usize> = Vec::new();
    while r.len() < want
        invariant
            want <= n,
            n == keys@.len(),
            want == if n < size {
                n
            } else {
                size
            },
            r@.len() <= want,
            taken@.len() == n,
            forall|a: int| 0 <= a < r@.len() ==> #[trigger] r@[a] < n,
            forall|g: int| 0 <= g < n ==> (#[trigger] taken@[g] <==> r@.contains(g as usize)),
            forall|a: int, b: int|
                0 <= a < b < r@.len() ==> ranks_above(keys@, r@[a] as int, r@[b] as int),
            forall|a: int, g: int|
                #![trigger r@[a], taken@[g]]
                0 <= a < r@.len() && 0 <= g < n && !taken@[g] ==> ranks_above(
                    keys@,
                    r@[a] as int,
                    g,
                ),
        decreases want - r@.len(),
    {
        // some group is still free, since fewer than `n` are taken
        proof {
            lemma_free_exists(taken@, r@);
        }
        let mut best: usize = 0;
        while taken[best]
            invariant
                best < n,
                taken@.len() == n,
                exists|g: int| best <= g < n && !taken@[g],
                forall|h: int| 0 <= h < best ==> taken@[h],
            decreases n - best,
        {
            best = best + 1;
        }
        let mut g: usize = best + 1;
        while g < n
            invariant
                best < g <= n,
                taken@.len() == n,
                n == keys@.len(),
                !taken@[best as int],
                forall|h: int|
                    0 <= h < g && !taken@[h] && h != best ==> ranks_above(keys@, best as int, h),
            decreases n - g,
        {
            if !taken[g] && keys[g] > keys[best] {
                best = g;
            }
            g = g + 1;
        }
        let ghost old_r = r@;
        taken.set(best, true);
        r.push(best);
        proof {
            assert forall|h: int| 0 <= h < n implies (#[trigger] taken@[h] <==> r@.contains(
                h as usize,
            )) by {
                if h == best {
                    assert(r@[old_r.len() as int] == best);
                } else {
                    if r@.contains(h as usize) {
                        let a = choose|a: int| 0 <= a < r@.len() && r@[a] == h as usize;
                        assert(a < old_r.len());
                        assert(old_r.contains(h as usize));
                    }
                    if old_r.contains(h as usize) {
                        let a = choose|a: int| 0 <= a < old_r.len() && old_r[a] == h as usize;
                        assert(r@[a] == h as usize);
                    }
                }
            }
        }
    }
    proof {
        assert forall|a: int, g: int|
            #![trigger r@[a], keys@[g]]
            0 <= a < r@.len() && 0 <= g < n && !r@.contains(g as usize) implies ranks_above(
            keys@,
            r@[a] as int,
            g,
        ) by {
            assert(!taken@[g]);
        }
    }
    r
}

/// The ranking is determined by the keys and the width: two rankings that
/// both list the best groups, best first, are the same.
pub proof fn lemma_top_ranking_unique(keys: Seq<u32>, size: int, r1: Seq<usize>, r2: Seq<usize>)
    requires
        is_top_ranking(keys, size, r1),
        is_top_ranking(keys, size, r2),
    ensures
        r1 == r2,
{
    lemma_ranking_prefix(keys, size, r1, r2, r1.len() as int);
    assert(r1 =~= r2);
}

proof fn lemma_ranking_prefix(keys: Seq<u32>, size: int, r1: Seq<usize>, r2: Seq<usize>, a: int)
    requires
        is_top_ranking(keys, size, r1),
        is_top_ranking(keys, size, r2),
        0 <= a <= r1.len(),
    ensures
        forall|b: int| 0 <= b < a ==> r1[b] == r2[b],
    decreases a,
{
    if a > 0 {
        lemma_ranking_prefix(keys, size, r1, r2, a - 1);
        let p = a - 1;
        let x = r1[p] as int;
        let y = r2[p] as int;
        if x != y {
            assert(ranks_above(keys, x, y)) by {
                if r1.contains(y as usize) {
                    let b = choose|b: int| 0 <= b < r1.len() && r1[b] == y as usize;
                    if b < p {
                        assert(r2[b] == r1[b]);
                        assert(ranks_above(keys, r2[b] as int, r2[p] as int));
                    }
                    assert(b > p);
                    assert(ranks_above(keys, r1[p] as int, r1[b] as int));
                }
            }
            assert(ranks_above(keys, y, x)) by {
                if r2.contains(x as usize) {
                    let b = choose|b: int| 0 <= b < r2.len() && r2[b] == x as usize;
                    if b < p {
                        assert(r1[b] == r2[b]);
                        assert(ranks_above(keys, r1[b] as int, r1[p] as int));
                    }
                    assert(b > p);
                    assert(ranks_above(keys, r2[p] as int, r2[b] as int));
                }
            }
        }
    }
}

proof fn lemma_free_exists(taken: Seq<bool>, r: Seq<usize>)
    requires
        r.len() < taken.len(),
        taken.len() <= usize::MAX,
        forall|a: int| 0 <= a < r.len() ==> #[trigger] r[a] < taken.len(),
        forall|g: int| 0 <= g < taken.len() ==> (#[trigger] taken[g] <==> r.contains(g as usize)),
    ensures
        exists|g: int| 0 <= g < taken.len() && !taken[g],
{
    let ts = Set::new(|g: usize| (g as int) < taken.len() && taken[g as int]);
    let rs = r.to_set();
    assert(ts.subset_of(rs)) by {
        assert forall|g: usize| ts.contains(g) implies rs.contains(g) by {
            assert(r.contains(g));
        }
    }
    r.lemma_cardinality_of_set();
    let all = Set::new(|g: usize| (g as int) < taken.len());
    if forall|g: int| 0 <= g < taken.len() ==> taken[g] {
        assert(all =~= ts);
        vstd::set_lib::lemma_len_subset(ts, rs);
        lemma_range_card(taken.len());
    }
}

proof fn lemma_range_card(n: nat)
    requires
        n <= usize::MAX,
    ensures
        Set::new(|g: usize| (g as int) < n).finite(),
        Set::new(|g: usize| (g as int) < n).len() == n,
    decreases n,
{
    let s = Set::new(|g: usize| (g as int) < n);
    if n == 0 {
        assert(s =~= Set::empty());
    } else {
        lemma_range_card((n - 1) as nat);
        let p = Set::new(|g: usize| (g as int) < n - 1);
        assert(s =~= p.insert((n - 1) as usize));
    }
}

/// The sequence a candidate stands for: the beam's own for the blank, one
/// base longer otherwise.
pub open spec fn extended(p: Seq<u8>, symbol: u8) -> Seq<u8> {
    if symbol == 0 {
        p
    } else {
        p.push(symbol)
    }
}

/// The live beams of a search over its trellis. Their masses are kept by
/// the caller, beam `i` at index `i`.
pub struct BeamSearch {
    forest: Forest,
    live: Vec<usize>,
}

impl BeamSearch {
    pub closed spec fn forest_view(&self) -> Forest {
        self.forest
    }

    /// The node of each live beam, best first.
    pub closed spec fn live_view(&self) -> Seq<usize> {
        self.live@
    }

    /// The sequence of live beam `i`.
    pub open spec fn beam_path(&self, i: int) -> Seq<u8> {
        self.forest_view().path_of(self.live_view()[i] as int)
    }

    /// At least one beam; every beam on its own node of the trellis.
    pub open spec fn wf(&self) -> bool {
        &&& self.forest_view().wf()
        &&& self.live_view().len() >= 1
        &&& forall|i: int|
            0 <= i < self.live_view().len() ==> #[trigger] self.live_view()[i]
                < self.forest_view().len_spec()
        &&& forall|a: int, b: int|
            0 <= a < b < self.live_view().len() ==> self.live_view()[a] != self.live_view()[b]
    }

    /// A search that has seen no timestep: one beam, at the root, holding all
    /// the mass as blank mass.
    pub fn new() -> (r: BeamSearch)
        ensures
            r.wf(),
            r.live_view().len() == 1,
            r.beam_path(0) == Seq::<u8>::empty(),
    {
        let forest = Forest::new();
        let live = vec![0usize];
        BeamSearch { forest, live }
    }

    /// Number of live beams.
    pub fn live_count(&self) -> (r: usize)
        ensures
            r == self.live_view().len(),
    {
        self.live.len()
    }

    /// The node of live beam `i`.
    pub fn live_node(&self, i: usize) -> (r: usize)
        requires
            i < self.live_view().len(),
        ensures
            r == self.live_view()[i as int],
    {
        self.live[i]
    }

    /// The trellis.
    pub fn forest(&self) -> (r: &Forest)
        ensures
            *r == self.forest_view(),
    {
        &self.forest
    }

    /// The context under which live beam `i` is scored.
    pub fn beam_context(&self, i: usize) -> (r: Context)
        requires
            self.wf(),
            i < self.live_view().len(),
        ensures
            r == crate::context::context_of(self.beam_path(i as int)),
            r.wf(),
    {
        self.forest.context(self.live[i])
    }

    /// Turns the admitted extensions of each live beam into candidates, beam
    /// by beam and symbol by symbol, adding the trellis nodes they need. The
    /// live beams and the sequences of the nodes already there stay.
    pub fn expand(&mut self, admitted: &Vec<[bool; 5]>) -> (r: Vec<Candidate>)
        requires
            old(self).wf(),
            admitted@.len() == old(self).live_view().len(),
            old(self).forest_view().len_spec() + 4 * old(self).live_view().len() < usize::MAX,
        ensures
            final(self).wf(),
            final(self).live_view() == old(self).live_view(),
            final(self).forest_view().len_spec() >= old(self).forest_view().len_spec(),
            forall|n: int|
                0 <= n < old(self).forest_view().len_spec()
                    ==> #[trigger] final(self).forest_view().path_of(n)
                    == old(self).forest_view().path_of(n),
            forall|k: int|
                0 <= k < r@.len() ==> {
                    let c = #[trigger] r@[k];
                    &&& c.source < admitted@.len()
                    &&& c.symbol < ALPHABET_SIZE
                    &&& admitted@[c.source as int]@[c.symbol as int]
                    &&& c.node < final(self).forest_view().len_spec()
                    &&& final(self).forest_view().path_of(c.node as int) == extended(
                        old(self).beam_path(c.source as int),
                        c.symbol,
                    )
                },
            forall|a: int, b: int| 0 <= a < b < r@.len() ==> cand_before(r@[a], r@[b]),
            forall|i: int, s: int|
                0 <= i < admitted@.len() && 0 <= s < 5 && #[trigger] admitted@[i]@[s]
                    ==> exists|k: int|
                    0 <= k < r@.len() && r@[k].source == i && r@[k].symbol == s,
    {
        let ghost old_forest = self.forest;
        let mut r: Vec<Candidate> = Vec::new();
        let mut i: usize = 0;
        while i < self.live.len()
            invariant
                self.live@ == old(self).live_view(),
                old_forest == old(self).forest_view(),
                admitted@.len() == self.live@.len(),
                i <= self.live@.len(),
                self.forest.wf(),
                self.live@.len() >= 1,
                forall|m: int| 0 <= m < self.live@.len() ==> #[trigger] self.live@[m] < old_forest.len_spec(),
                forall|a: int, b: int| 0 <= a < b < self.live@.len() ==> self.live@[a] != self.live@[b],
                old_forest.len_spec() <= self.forest.len_spec() <= old_forest.len_spec() + 4 * i,
                old_forest.len_spec() + 4 * self.live@.len() < usize::MAX,
                forall|n: int|
                    0 <= n < old_forest.len_spec() ==> #[trigger] self.forest.path_of(n)
                        == old_forest.path_of(n),
                forall|k: int|
                    0 <= k < r@.len() ==> {
                        let c = #[trigger] r@[k];
                        &&& c.source < i
                        &&& c.symbol < ALPHABET_SIZE
                        &&& admitted@[c.source as int]@[c.symbol as int]
                        &&& c.node < self.forest.len_spec()
                        &&& self.forest.path_of(c.node as int) == extended(
                            old_forest.path_of(self.live@[c.source as int] as int),
                            c.symbol,
                        )
                    },
                forall|a: int, b: int| 0 <= a < b < r@.len() ==> cand_before(r@[a], r@[b]),
                forall|j: int, s: int|
                    0 <= j < i && 0 <= s < 5 && #[trigger] admitted@[j]@[s] ==> exists|k: int|
                        0 <= k < r@.len() && r@[k].source == j && r@[k].symbol == s,
            decreases self.live@.len() - i,
        {
            let node = self.live[i];
            let row = admitted[i];
            let mut s: usize = 0;
            let ghost start_len = self.forest.len_spec();
            while s < ALPHABET_SIZE
                invariant
                    self.live@ == old(self).live_view(),
                    old_forest == old(self).forest_view(),
                    admitted@.len() == self.live@.len(),
                    i < self.live@.len(),
                    node == self.live@[i as int],
                    row == admitted@[i as int],
                    s <= ALPHABET_SIZE,
                    self.forest.wf(),
                    forall|m: int| 0 <= m < self.live@.len() ==> #[trigger] self.live@[m] < old_forest.len_spec(),
                    old_forest.len_spec() <= start_len <= old_forest.len_spec() + 4 * i,
                    start_len <= self.forest.len_spec(),
                    self.forest.len_spec() <= start_len + (if s == 0 { 0 } else { s - 1 }),
                    old_forest.len_spec() + 4 * self.live@.len() < usize::MAX,
                    forall|n: int|
                        0 <= n < old_forest.len_spec() ==> #[trigger] self.forest.path_of(n)
                            == old_forest.path_of(n),
                    forall|k: int|
                        0 <= k < r@.len() ==> {
                            let c = #[trigger] r@[k];
                            &&& (c.source < i || (c.source == i && c.symbol < s))
                            &&& c.symbol < ALPHABET_SIZE
                            &&& admitted@[c.source as int]@[c.symbol as int]
                            &&& c.node < self.forest.len_spec()
                            &&& self.forest.path_of(c.node as int) == extended(
                                old_forest.path_of(self.live@[c.source as int] as int),
                                c.symbol,
                            )
                        },
                    forall|a: int, b: int| 0 <= a < b < r@.len() ==> cand_before(r@[a], r@[b]),
                    forall|j: int, t: int|
                        0 <= j < self.live@.len() && 0 <= t < 5 && (j < i || (j == i && t < s))
                            && #[trigger] admitted@[j]@[t] ==> exists|k: int|
                            0 <= k < r@.len() && r@[k].source == j && r@[k].symbol == t,
                decreases ALPHABET_SIZE - s,
            {
                if row[s] {
                    let ghost before = self.forest;
                    let target = if s == 0 {
                        node
                    } else {
                        self.forest.child(node, s as u8)
                    };
                    proof {
                        assert(self.forest.path_of(node as int) == old_forest.path_of(node as int));
                        assert forall|k: int| 0 <= k < r@.len() implies #[trigger] self.forest.path_of(
                            r@[k].node as int,
                        ) == before.path_of(r@[k].node as int) by {}
                    }
                    let c = Candidate { source: i, symbol: s as u8, node: target };
                    let ghost prev_r = r@;
                    r.push(c);
                    proof {
                        assert(r@[r@.len() - 1] == c);
                        assert forall|j: int, t: int|
                            0 <= j < self.live@.len() && 0 <= t < 5 && (j < i || (j == i && t < s + 1))
                                && #[trigger] admitted@[j]@[t] implies exists|k: int|
                            0 <= k < r@.len() && r@[k].source == j && r@[k].symbol == t by {
                            if j == i && t == s {
                                assert(r@[r@.len() - 1].source == j && r@[r@.len() - 1].symbol == t);
                            } else {
                                assert(admitted@[j]@[t]);
                                assert(exists|k: int|
                                    0 <= k < prev_r.len() && prev_r[k].source == j && prev_r[k].symbol == t);
                                let k = choose|k: int|
                                    0 <= k < prev_r.len() && prev_r[k].source == j && prev_r[k].symbol == t;
                                assert(r@[k] == prev_r[k]);
                            }
                        }
                    }
                }
                s = s + 1;
            }
            i = i + 1;
        }
        r
    }

    /// Ranks the merged groups by the keys of their total masses and keeps
    /// the best `size` of them as the new live beams, best first. Returns the
    /// ranked group indices: the caller moves the masses along and rescales
    /// them by the top one.
    pub fn select(&mut self, nodes: &Vec<usize>, keys: &Vec<u32>, size: usize) -> (r: Vec<usize>)
        requires
            old(self).wf(),
            size >= 1,
            keys@.len() == nodes@.len(),
            nodes@.len() >= 1,
            forall|g: int| 0 <= g < nodes@.len() ==> #[trigger] nodes@[g] < old(self).forest_view().len_spec(),
            forall|a: int, b: int| 0 <= a < b < nodes@.len() ==> nodes@[a] != nodes@[b],
        ensures
            final(self).wf(),
            final(self).forest_view() == old(self).forest_view(),
            is_top_ranking(keys@, size as int, r@),
            final(self).live_view().len() == r@.len(),
            forall|a: int| 0 <= a < r@.len() ==> #[trigger] final(self).live_view()[a] == nodes@[r@[a] as int],
    {
        let r = rank_groups(keys, size);
        let mut live: Vec<usize> = Vec::new();
        let mut a: usize = 0;
        while a < r.len()
            invariant
                is_top_ranking(keys@, size as int, r@),
                keys@.len() == nodes@.len(),
                a <= r@.len(),
                live@.len() == a,
                forall|m: int| 0 <= m < a ==> #[trigger] live@[m] == nodes@[r@[m] as int],
            decreases r@.len() - a,
        {
            live.push(nodes[r[a]]);
            a = a + 1;
        }
        self.live = live;
        proof {
            assert forall|x: int, y: int| 0 <= x < y < self.live@.len() implies self.live@[x] != self.live@[y] by {
                assert(ranks_above(keys@, r@[x] as int, r@[y] as int));
            }
        }
        r
    }

    /// The bases of the best beam, as text.
    pub fn best_sequence(&self) -> (r: String)
        requires
            self.wf(),
        ensures
            r@ == symbols_text(self.beam_path(0)),
    {
        let bases = self.forest.backtrack(self.live[0]);
        symbols_to_string(&bases)
    }

    /// The nodes along the best beam's sequence, one per base.
    pub fn best_lineage(&self) -> (r: Vec<usize>)
        requires
            self.wf(),
        ensures
            r@.len() == self.beam_path(0).len(),
            forall|k: int|
                0 <= k < r@.len() ==> #[trigger] r@[k] < self.forest_view().len_spec()
                    && self.forest_view().path_of(r@[k] as int) == self.beam_path(0).subrange(0, k + 1),
    {
        self.forest.lineage(self.live[0])
    }

    /// The decoded bases of the best beam and, in lockstep, the quality
    /// characters of the scores given for them.
    pub fn result(&self, quality: &Vec<u32>) -> (r: (String, String))
        requires
            self.wf(),
            quality@.len() == self.beam_path(0).len(),
        ensures
            r.0@ == symbols_text(self.beam_path(0)),
            r.1@ == quality_text(quality@),
            r.0@.len() == r.1@.len(),
    {
        let seq = self.best_sequence();
        let q = quality_to_string(quality);
        (seq, q)
    }
}

/// The sequences that the admitted extensions of a tick land on, for live
/// beams with sequences `paths`.
pub open spec fn landing(paths: Seq<Seq<u8>>, keys: Seq<[u32; 5]>, cut: u32) -> Set<Seq<u8>> {
    Set::new(
        |p: Seq<u8>|
            exists|i: int, s: int|
                0 <= i < paths.len() && 0 <= s < 5 && #[trigger] admits(keys, cut, i, s) && p
                    == extended(paths[i], s as u8),
    )
}

/// Number of beams that survive a tick with beam width `size`: one per
/// distinct landing sequence, at most `size`.
pub open spec fn survivors(paths: Seq<Seq<u8>>, keys: Seq<[u32; 5]>, cut: u32, size: int) -> int {
    let n = landing(paths, keys, cut).len() as int;
    if n < size {
        n
    } else {
        size
    }
}

/// The sequences of every beam extended by symbol `s`.
pub open spec fn extensions_by(paths: Seq<Seq<u8>>, s: u8) -> Set<Seq<u8>> {
    Seq::new(paths.len(), |i: int| extended(paths[i], s)).to_set()
}

proof fn lemma_landing_finite(paths: Seq<Seq<u8>>, keys: Seq<[u32; 5]>, cut: u32)
    ensures
        landing(paths, keys, cut).finite(),
{
    broadcast use vstd::seq_lib::seq_to_set_is_finite, vstd::set_lib::lemma_set_union_finite_iff;

    let all = extensions_by(paths, 0).union(extensions_by(paths, 1)).union(
        extensions_by(paths, 2),
    ).union(extensions_by(paths, 3)).union(extensions_by(paths, 4));
    assert(all.finite());
    let l = landing(paths, keys, cut);
    assert forall|p: Seq<u8>| l.contains(p) implies all.contains(p) by {
        let (i, s) = choose|i: int, s: int|
            0 <= i < paths.len() && 0 <= s < 5 && #[trigger] admits(keys, cut, i, s) && p
                == extended(paths[i], s as u8);
        let q = Seq::new(paths.len(), |j: int| extended(paths[j], s as u8));
        assert(q[i] == p);
        assert(extensions_by(paths, s as u8).contains(p));
    }
    vstd::set_lib::lemma_len_subset(l, all);
}

/// Raising the cut never lets more beams survive a tick.
pub proof fn lemma_survivors_monotone(
    paths: Seq<Seq<u8>>,
    keys: Seq<[u32; 5]>,
    low: u32,
    high: u32,
    size: int,
)
    requires
        paths.len() == keys.len(),
        low <= high,
    ensures
        survivors(paths, keys, high, size) <= survivors(paths, keys, low, size),
{
    lemma_landing_finite(paths, keys, low);
    lemma_landing_finite(paths, keys, high);
    let lh = landing(paths, keys, high);
    let ll = landing(paths, keys, low);
    if any_passes(keys, high) {
        let (i, s) = choose|i: int, s: int|
            0 <= i < keys.len() && 0 <= s < 5 && passes_cut(s, keys[i]@[s], high);
        assert(passes_cut(s, keys[i]@[s], low));
        assert(any_passes(keys, low));
        assert forall|p: Seq<u8>| lh.contains(p) implies ll.contains(p) by {
            let (i, s) = choose|i: int, s: int|
                0 <= i < paths.len() && 0 <= s < 5 && #[trigger] admits(keys, high, i, s) && p
                    == extended(paths[i], s as u8);
            assert(admits(keys, low, i, s));
        }
        vstd::set_lib::lemma_len_subset(lh, ll);
    } else if any_passes(keys, low) {
        let (i, s) = choose|i: int, s: int|
            0 <= i < keys.len() && 0 <= s < 5 && passes_cut(s, keys[i]@[s], low);
        assert(admits(keys, low, i, s));
        let x = extended(paths[i], s as u8);
        assert(ll.contains(x));
        vstd::set_lib::lemma_len_subset(set![x], ll);
        assert(set![x].len() == 1);
        if lh.len() > 0 {
            let p0 = lh.choose();
            assert(lh.contains(p0)) by {
                vstd::set_lib::lemma_set_empty_equivalency_len(lh);
            }
            assert forall|p: Seq<u8>| lh.contains(p) implies set![p0].contains(p) by {
                let (a, sa) = choose|a: int, sa: int|
                    0 <= a < paths.len() && 0 <= sa < 5 && #[trigger] admits(keys, high, a, sa)
                        && p == extended(paths[a], sa as u8);
                let (b, sb) = choose|b: int, sb: int|
                    0 <= b < paths.len() && 0 <= sb < 5 && #[trigger] admits(keys, high, b, sb)
                        && p0 == extended(paths[b], sb as u8);
                lemma_first_max_unique(keys[0]@, sa, sb);
            }
            vstd::set_lib::lemma_len_subset(lh, set![p0]);
        }
    } else {
        assert forall|p: Seq<u8>| lh.contains(p) implies ll.contains(p) by {
            let (i, s) = choose|i: int, s: int|
                0 <= i < paths.len() && 0 <= s < 5 && #[trigger] admits(keys, high, i, s) && p
                    == extended(paths[i], s as u8);
            assert(admits(keys, low, i, s));
        }
        assert forall|p: Seq<u8>| ll.contains(p) implies lh.contains(p) by {
            let (i, s) = choose|i: int, s: int|
                0 <= i < paths.len() && 0 <= s < 5 && #[trigger] admits(keys, low, i, s) && p
                    == extended(paths[i], s as u8);
            assert(admits(keys, high, i, s));
        }
        assert(lh =~= ll);
    }
}

/// The beams that a tick keeps, before truncation, are as many as the
/// sequences it lands on: candidates that follow the admitted extensions
/// (as [`BeamSearch::expand`] gives them) fold (as [`merge_candidates`]
/// folds them) onto exactly one node per landing sequence.
pub proof fn lemma_merged_nodes_count(
    forest: Forest,
    paths: Seq<Seq<u8>>,
    keys: Seq<[u32; 5]>,
    cut: u32,
    cands: Seq<Candidate>,
    nodes: Seq<usize>,
    group: Seq<usize>,
    first: Seq<usize>,
)
    requires
        forest.wf(),
        paths.len() == keys.len(),
        forall|k: int|
            0 <= k < cands.len() ==> {
                let c = #[trigger] cands[k];
                &&& c.source < paths.len()
                &&& c.symbol < 5
                &&& admits(keys, cut, c.source as int, c.symbol as int)
                &&& c.node < forest.len_spec()
                &&& forest.path_of(c.node as int) == extended(paths[c.source as int], c.symbol)
            },
        forall|i: int, s: int|
            0 <= i < paths.len() && 0 <= s < 5 && #[trigger] admits(keys, cut, i, s) ==> exists|
                k: int,
            |
                0 <= k < cands.len() && cands[k].source == i && cands[k].symbol == s,
        merges(cands, nodes, group, first),
    ensures
        nodes.len() == landing(paths, keys, cut).len(),
{
    let ps = nodes.map_values(|n: usize| forest.path_of(n as int));
    assert forall|g: int| 0 <= g < nodes.len() implies #[trigger] nodes[g] < forest.len_spec()
        && ps[g] == forest.path_of(nodes[g] as int) by {
        let k = first[g] as int;
        assert(group[k] == g);
        assert(nodes[group[k] as int] == cands[k].node);
    }
    assert(ps.no_duplicates()) by {
        assert forall|a: int, b: int| 0 <= a < ps.len() && 0 <= b < ps.len() && a != b implies ps[a]
            != ps[b] by {
            assert(nodes[a] < forest.len_spec());
            assert(nodes[b] < forest.len_spec());
            forest.lemma_distinct_paths(nodes[a] as int, nodes[b] as int);
        }
    }
    ps.unique_seq_to_set();
    let l = landing(paths, keys, cut);
    assert forall|p: Seq<u8>| ps.to_set().contains(p) implies l.contains(p) by {
        let g = choose|g: int| 0 <= g < ps.len() && ps[g] == p;
        let k = first[g] as int;
        assert(group[k] == g);
        let c = cands[k];
        assert(nodes[g] == c.node);
        assert(admits(keys, cut, c.source as int, c.symbol as int));
        assert(p == extended(paths[c.source as int], (c.symbol as int) as u8));
    }
    assert forall|p: Seq<u8>| l.contains(p) implies ps.to_set().contains(p) by {
        let (i, s) = choose|i: int, s: int|
            0 <= i < paths.len() && 0 <= s < 5 && #[trigger] admits(keys, cut, i, s) && p
                == extended(paths[i], s as u8);
        let k = choose|k: int| 0 <= k < cands.len() && cands[k].source == i && cands[k].symbol == s;
        let g = group[k] as int;
        assert(nodes[g] == cands[k].node);
        assert(ps[g] == p);
    }
    assert(ps.to_set() =~= l);
}

} // verus!
