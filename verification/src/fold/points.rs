//! Where a chain is folded: the split into bands that costs least.

use crate::fold::FoldSkip;
use vstd::prelude::*;

verus! {

/// The gap between two ranks of a band.
pub const RANK_GAP: u128 = 3840000;

/// Room for the turn at a folded end of a band.
pub const TURN_PAD: u128 = 2304000;

/// Cost of a fold.
pub const BREAK_PENALTY: u128 = 14745600000000;

/// Further cost of a fold at an edge with a label.
pub const FOLD_LABEL_PENALTY: u128 = 6553600000000;

/// The longest chain and the largest budget that the costs are exact for.
pub const MAX_RUN: usize = 0x8000_0000;

pub const MAX_BUDGET: u64 = 0x8000_0000_0000;

/// The chain to fold: the flow extent of each node, which of the gaps
/// between neighbours carry a label, and the budget.
pub struct Strip {
    pub ext: Seq<int>,
    pub labelled: Seq<bool>,
    pub budget: int,
}

/// The extent of the first `k` nodes together.
pub open spec fn sum(ext: Seq<int>, k: int) -> int
    decreases k,
{
    if k <= 0 {
        0
    } else {
        sum(ext, k - 1) + ext[k - 1]
    }
}

/// The length of the band from node `j` to node `i`: the nodes, the gaps
/// between them and room for a turn at each end that is folded.
pub open spec fn band_length(s: Strip, j: int, i: int) -> int {
    sum(s.ext, i + 1) - sum(s.ext, j) + RANK_GAP * (i - j) + (if j > 0 {
        TURN_PAD as int
    } else {
        0
    }) + (if i + 1 < s.ext.len() {
        TURN_PAD as int
    } else {
        0
    })
}

/// Whether the band from node `j` to node `i` is within the budget.
pub open spec fn fits(s: Strip, j: int, i: int) -> bool {
    band_length(s, j, i) <= s.budget
}

/// The cost of the fold before node `j`.
pub open spec fn fold_cost(s: Strip, j: int) -> int {
    if j <= 0 {
        0
    } else if s.labelled[j - 1] {
        BREAK_PENALTY + FOLD_LABEL_PENALTY
    } else {
        BREAK_PENALTY as int
    }
}

/// The cost of the band from node `j` to node `i`: the square of what it
/// leaves of the budget, and the fold before it.
pub open spec fn band_cost(s: Strip, j: int, i: int) -> int {
    let slack = s.budget - band_length(s, j, i);
    slack * slack + fold_cost(s, j)
}

/// The cheapest split of the first `i` nodes: its cost, and where its last
/// band starts.
pub open spec fn best(s: Strip, i: nat) -> Option<(int, int)>
    decreases i, i + 1,
{
    if i == 0 {
        Some((0, 0))
    } else {
        pick(s, i, i, None)
    }
}

/// The cheaper of `chosen` and the splits of the first `i` nodes whose last
/// band starts before node `j`, shorter last bands first, up to the first
/// that does not fit.
pub open spec fn pick(s: Strip, i: nat, j: nat, chosen: Option<(int, int)>) -> Option<(int, int)>
    decreases i, j,
{
    if j == 0 || j > i {
        chosen
    } else {
        let c = (j - 1) as nat;
        if !fits(s, c as int, i - 1) {
            chosen
        } else {
            pick(s, i, c, cheaper(s, i, c, best(s, c), chosen))
        }
    }
}

/// The cheaper of `chosen` and the split that adds the band from node `c` to
/// a split of the first `c` nodes.
pub open spec fn cheaper(
    s: Strip,
    i: nat,
    c: nat,
    before: Option<(int, int)>,
    chosen: Option<(int, int)>,
) -> Option<(int, int)> {
    match before {
        Some((cost, _)) => {
            let total = cost + band_cost(s, c as int, i - 1);
            match chosen {
                Some((least, _)) => if total < least {
                    Some((total, c as int))
                } else {
                    chosen
                },
                None => Some((total, c as int)),
            }
        },
        None => chosen,
    }
}

/// The bands of the cheapest split of the first `end` nodes, as ranges that
/// hold both ends.
pub open spec fn cuts(s: Strip, end: nat) -> Seq<(int, int)>
    decreases end,
{
    if end == 0 {
        Seq::empty()
    } else {
        match best(s, end) {
            Some((_, start)) => if 0 <= start < end {
                cuts(s, start as nat).push((start, end - 1))
            } else {
                Seq::empty()
            },
            None => Seq::empty(),
        }
    }
}

/// Whether each node is within the budget by itself.
pub open spec fn nodes_fit(s: Strip) -> bool {
    forall|i: int| 0 <= i < s.ext.len() ==> #[trigger] fits(s, i, i)
}

/// The bands of a chain, or the reason there are none.
pub open spec fn folded(s: Strip) -> Result<Seq<(int, int)>, FoldSkip> {
    if nodes_fit(s) {
        Ok(cuts(s, s.ext.len()))
    } else {
        Err(FoldSkip::NodeTooLong)
    }
}

/// Whether a strip holds as many gaps as it has, and no negative lengths.
pub open spec fn is_strip(s: Strip) -> bool {
    &&& s.labelled.len() + 1 >= s.ext.len()
    &&& s.budget >= 0
    &&& forall|i: int| 0 <= i < s.ext.len() ==> 0 <= #[trigger] s.ext[i] <= u64::MAX
}

proof fn lemma_sum(s: Strip, a: int, b: int)
    requires
        is_strip(s),
        0 <= a <= b <= s.ext.len(),
    ensures
        0 <= sum(s.ext, a) <= sum(s.ext, b),
        sum(s.ext, b) <= b * u64::MAX,
    decreases b,
{
    if a < b {
        lemma_sum(s, a, b - 1);
        assert(b * u64::MAX == (b - 1) * u64::MAX + u64::MAX) by (nonlinear_arith);
    } else if b > 0 {
        lemma_sum(s, b - 1, b - 1);
        assert(b * u64::MAX == (b - 1) * u64::MAX + u64::MAX) by (nonlinear_arith);
    }
}

/// A longer band is longer: the gap that it gains outweighs the turn that it
/// may lose.
proof fn lemma_longer(s: Strip, c: int, j: int, i: int)
    requires
        is_strip(s),
        0 <= c <= j <= i < s.ext.len(),
        fits(s, c, i),
    ensures
        fits(s, j, i),
{
    lemma_sum(s, c, j);
    if c < j {
        assert(RANK_GAP * (i - c) >= RANK_GAP * (i - j) + TURN_PAD) by (nonlinear_arith)
            requires
                c < j,
                RANK_GAP == 3840000,
                TURN_PAD == 2304000,
        ;
    }
}

/// What `pick` chooses costs no more than `chosen` and no more than any
/// split that it can see; and it is one of them.
proof fn lemma_pick(s: Strip, i: nat, j: nat, chosen: Option<(int, int)>)
    requires
        is_strip(s),
        0 < i <= s.ext.len(),
        j <= i,
    ensures
        chosen matches Some(x) ==> pick(s, i, j, chosen) matches Some(y) && y.0 <= x.0,
        forall|c: int|
            0 <= c < j && #[trigger] fits(s, c, i - 1) && best(s, c as nat) is Some ==> pick(
                s,
                i,
                j,
                chosen,
            ) is Some && pick(s, i, j, chosen)->Some_0.0 <= best(s, c as nat)->Some_0.0
                + band_cost(s, c, i - 1),
        pick(s, i, j, chosen) == chosen || (pick(s, i, j, chosen) matches Some(y) && 0 <= y.1 < j
            && fits(s, y.1, i - 1) && (best(s, y.1 as nat) matches Some(b) && y.0 == b.0
            + band_cost(s, y.1, i - 1))),
    decreases j,
{
    if j > 0 {
        let c = (j - 1) as nat;
        if fits(s, c as int, i - 1) {
            let next = cheaper(s, i, c, best(s, c), chosen);
            lemma_pick(s, i, c, next);
            assert forall|d: int|
                0 <= d < j && #[trigger] fits(s, d, i - 1) && best(s, d as nat) is Some implies pick(
                s,
                i,
                j,
                chosen,
            ) is Some && pick(s, i, j, chosen)->Some_0.0 <= best(s, d as nat)->Some_0.0
                + band_cost(s, d, i - 1) by {
                if d == c {
                    assert(next is Some);
                }
            }
        } else {
            assert forall|d: int|
                0 <= d < j && #[trigger] fits(s, d, i - 1) && best(s, d as nat) is Some implies pick(
                s,
                i,
                j,
                chosen,
            ) is Some && pick(s, i, j, chosen)->Some_0.0 <= best(s, d as nat)->Some_0.0
                + band_cost(s, d, i - 1) by {
                lemma_longer(s, d, c as int, i - 1);
            }
        }
    }
}

/// Where every node fits by itself there is a cheapest split; it ends in a
/// band that fits, behind a cheapest split, and it is no dearer than one
/// with another last band.
pub proof fn lemma_best(s: Strip, i: nat)
    requires
        is_strip(s),
        nodes_fit(s),
        0 < i <= s.ext.len(),
    ensures
        best(s, i) matches Some(y) && 0 <= y.1 < i && fits(s, y.1, i - 1) && (best(s, y.1 as nat)
            matches Some(b) && y.0 == b.0 + band_cost(s, y.1, i - 1)),
        forall|c: int|
            0 <= c < i && #[trigger] fits(s, c, i - 1) ==> best(s, c as nat) is Some && best(
                s,
                i,
            )->Some_0.0 <= best(s, c as nat)->Some_0.0 + band_cost(s, c, i - 1),
    decreases i,
{
    assert forall|c: int| 0 <= c < i implies #[trigger] best(s, c as nat) is Some by {
        if c > 0 {
            lemma_best(s, c as nat);
        }
    }
    lemma_pick(s, i, i, None);
    assert(fits(s, i - 1, i - 1));
    assert(best(s, (i - 1) as nat) is Some);
}

/// The cost of a cheapest split stays small.
proof fn lemma_cost_bound(s: Strip, i: nat)
    requires
        is_strip(s),
        nodes_fit(s),
        s.budget <= MAX_BUDGET,
        i <= s.ext.len(),
    ensures
        best(s, i) matches Some(y) && 0 <= y.0 <= i * 0x1_0000_0000_0000_0000_0000_0000,
    decreases i,
{
    if i > 0 {
        lemma_best(s, i);
        let y = best(s, i)->Some_0;
        lemma_cost_bound(s, y.1 as nat);
        lemma_band_cost(s, y.1, i - 1);
        assert(y.1 * 0x1_0000_0000_0000_0000_0000_0000 + 0x1_0000_0000_0000_0000_0000_0000 <= i
            * 0x1_0000_0000_0000_0000_0000_0000) by (nonlinear_arith)
            requires
                y.1 < i,
        ;
    }
}

proof fn lemma_band_cost(s: Strip, j: int, i: int)
    requires
        is_strip(s),
        s.budget <= MAX_BUDGET,
        0 <= j <= i < s.ext.len(),
        fits(s, j, i),
    ensures
        0 <= band_length(s, j, i),
        0 <= (s.budget - band_length(s, j, i)) * (s.budget - band_length(s, j, i))
            <= 0x4000_0000_0000_0000_0000_0000,
        0 <= band_cost(s, j, i) <= 0x1_0000_0000_0000_0000_0000_0000,
{
    lemma_sum(s, j, i + 1);
    let slack = s.budget - band_length(s, j, i);
    assert(0 <= RANK_GAP * (i - j)) by (nonlinear_arith)
        requires
            j <= i,
            RANK_GAP == 3840000,
    ;
    assert(0 <= slack * slack <= 0x4000_0000_0000_0000_0000_0000) by (nonlinear_arith)
        requires
            0 <= slack <= 0x8000_0000_0000,
    ;
}

/// The extents of a chain in mathematical terms.
pub open spec fn lengths(v: Seq<u64>) -> Seq<int> {
    v.map_values(|x: u64| x as int)
}

/// The chain with these extents, labels and budget.
pub open spec fn strip(ext: Seq<u64>, labelled: Seq<bool>, budget: u64) -> Strip {
    Strip { ext: lengths(ext), labelled, budget: budget as int }
}

/// Bands in mathematical terms.
pub open spec fn band_views(v: Seq<(usize, usize)>) -> Seq<(int, int)> {
    v.map_values(|b: (usize, usize)| (b.0 as int, b.1 as int))
}

struct Folder {
    prefix: Vec<u128>,
    labelled: Vec<bool>,
    budget: u128,
    best: Vec<(u128, usize)>,
}

impl Folder {
    spec fn wf(self, s: Strip) -> bool {
        &&& is_strip(s)
        &&& s.ext.len() <= MAX_RUN
        &&& s.budget <= MAX_BUDGET
        &&& self.budget == s.budget
        &&& self.labelled@ == s.labelled
        &&& self.prefix@.len() == s.ext.len() + 1
        &&& forall|i: int| 0 <= i <= s.ext.len() ==> #[trigger] self.prefix@[i] == sum(s.ext, i)
    }

    spec fn filled(self, s: Strip) -> bool {
        forall|i: int|
            0 <= i < self.best@.len() ==> best(s, i as nat) == Some(
                ((#[trigger] self.best@[i]).0 as int, self.best@[i].1 as int),
            )
    }

    fn length(&self, j: usize, i: usize, Ghost(s): Ghost<Strip>) -> (r: u128)
        requires
            self.wf(s),
            j <= i < s.ext.len(),
        ensures
            r == band_length(s, j as int, i as int),
    {
        proof {
            lemma_sum(s, j as int, i + 1);
            assert((i + 1) * u64::MAX <= 0x8000_0000 * u64::MAX) by (nonlinear_arith)
                requires
                    i < 0x8000_0000,
            ;
            assert(0 <= RANK_GAP * (i - j) <= RANK_GAP * 0x8000_0000) by (nonlinear_arith)
                requires
                    j <= i < 0x8000_0000,
                    RANK_GAP == 3840000,
            ;
        }
        let n: usize = self.prefix.len() - 1;
        let mut r: u128 = self.prefix[i + 1] - self.prefix[j] + RANK_GAP * (i - j) as u128;
        if j > 0 {
            r += TURN_PAD;
        }
        if i + 1 < n {
            r += TURN_PAD;
        }
        r
    }

    fn choose_start(&mut self, i: usize, Ghost(s): Ghost<Strip>)
        requires
            old(self).wf(s),
            nodes_fit(s),
            0 < i <= s.ext.len(),
            old(self).best@.len() == i,
            old(self).filled(s),
        ensures
            final(self).wf(s),
            final(self).best@.len() == i + 1,
            final(self).filled(s),
    {
        let mut chosen: Option<(u128, usize)> = None;
        let ghost mut seen: Option<(int, int)> = None;
        let mut j: usize = i;
        while j > 0
            invariant_except_break
                best(s, i as nat) == pick(s, i as nat, j as nat, seen),
            invariant
                self.wf(s),
                nodes_fit(s),
                *self == *old(self),
                0 < i <= s.ext.len(),
                j <= i,
                self.best@.len() == i,
                self.filled(s),
                seen == (match chosen {
                    Some((c, k)) => Some((c as int, k as int)),
                    None => None,
                }),
            ensures
                best(s, i as nat) == seen,
            decreases j,
        {
            let c: usize = j - 1;
            let len: u128 = self.length(c, i - 1, Ghost(s));
            if len > self.budget {
                break ;
            }
            proof {
                lemma_cost_bound(s, c as nat);
                lemma_band_cost(s, c as int, i - 1);
                assert(c * 0x1_0000_0000_0000_0000_0000_0000 <= 0x8000_0000
                    * 0x1_0000_0000_0000_0000_0000_0000) by (nonlinear_arith)
                    requires
                        c <= 0x8000_0000,
                ;
            }
            let slack: u128 = self.budget - len;
            let (before, at) = self.best[c];
            let mut cost: u128 = before + slack * slack;
            if c > 0 {
                cost += BREAK_PENALTY;
                if self.labelled[c - 1] {
                    cost += FOLD_LABEL_PENALTY;
                }
            }
            assert(cost == before + band_cost(s, c as int, i - 1));
            assert(best(s, c as nat) == Some((before as int, at as int)));
            let better = match chosen {
                Some((least, _)) => cost < least,
                None => true,
            };
            if better {
                chosen = Some((cost, c));
            }
            proof {
                seen = cheaper(s, i as nat, c as nat, best(s, c as nat), seen);
            }
            j = c;
        }
        proof {
            lemma_best(s, i as nat);
        }
        if let Some(found) = chosen {
            let ghost before = self.best@;
            self.best.push(found);
            assert forall|k: int| 0 <= k < self.best@.len() implies best(s, k as nat) == Some(
                ((#[trigger] self.best@[k]).0 as int, self.best@[k].1 as int),
            ) by {
                if k < i {
                    assert(self.best@[k] == before[k]);
                }
            }
        }
    }
}

fn prefix_sums(ext: &Vec<u64>, labelled: &Vec<bool>, budget: u64) -> (r: Vec<u128>)
    requires
        ext@.len() <= MAX_RUN,
        labelled@.len() + 1 >= ext@.len(),
    ensures
        r@.len() == ext@.len() + 1,
        forall|i: int| 0 <= i <= ext@.len() ==> #[trigger] r@[i] == sum(lengths(ext@), i),
{
    let ghost s = strip(ext@, labelled@, budget);
    let mut r: Vec<u128> = Vec::new();
    r.push(0);
    let mut i: usize = 0;
    let mut total: u128 = 0;
    while i < ext.len()
        invariant
            i <= ext@.len(),
            ext@.len() <= MAX_RUN,
            s == strip(ext@, labelled@, budget),
            is_strip(s),
            total == sum(s.ext, i as int),
            r@.len() == i + 1,
            forall|k: int| 0 <= k <= i ==> #[trigger] r@[k] == sum(s.ext, k),
        decreases ext@.len() - i,
    {
        proof {
            lemma_sum(s, 0, i + 1);
            assert((i + 1) * u64::MAX <= 0x8000_0000 * u64::MAX) by (nonlinear_arith)
                requires
                    i < 0x8000_0000,
            ;
            assert(s.ext[i as int] == ext@[i as int]);
        }
        total += ext[i] as u128;
        r.push(total);
        i += 1;
    }
    r
}

/// Choose band boundaries over a chain so that every band is within the
/// budget, at the least total cost. Returns the bands as ranges of chain
/// positions that hold both ends.
pub fn fold_points(ext: &Vec<u64>, labelled_gap: &Vec<bool>, max_extent: u64) -> (r: Result<
    Vec<(usize, usize)>,
    FoldSkip,
>)
    requires
        ext@.len() <= MAX_RUN,
        max_extent <= MAX_BUDGET,
        labelled_gap@.len() + 1 >= ext@.len(),
    ensures
        match r {
            Ok(bands) => folded(strip(ext@, labelled_gap@, max_extent)) == Ok::<
                Seq<(int, int)>,
                FoldSkip,
            >(band_views(bands@)),
            Err(why) => folded(strip(ext@, labelled_gap@, max_extent)) == Err::<
                Seq<(int, int)>,
                FoldSkip,
            >(why),
        },
{
    let n: usize = ext.len();
    let ghost s = strip(ext@, labelled_gap@, max_extent);
    let prefix = prefix_sums(ext, labelled_gap, max_extent);
    let mut labelled: Vec<bool> = Vec::new();
    let mut i: usize = 0;
    while i < labelled_gap.len()
        invariant
            i <= labelled_gap@.len(),
            labelled@ == labelled_gap@.take(i as int),
        decreases labelled_gap@.len() - i,
    {
        labelled.push(labelled_gap[i]);
        i += 1;
        assert(labelled@ =~= labelled_gap@.take(i as int));
    }
    assert(labelled@ =~= labelled_gap@);
    let mut f = Folder { prefix, labelled, budget: max_extent as u128, best: Vec::new() };
    let mut i: usize = 0;
    while i < n
        invariant
            i <= n,
            n == s.ext.len(),
            f.wf(s),
            s == strip(ext@, labelled_gap@, max_extent),
            f.best@.len() == 0,
            forall|k: int| 0 <= k < i ==> #[trigger] fits(s, k, k),
        decreases n - i,
    {
        if f.length(i, i, Ghost(s)) > f.budget {
            assert(!fits(s, i as int, i as int));
            return Err(FoldSkip::NodeTooLong);
        }
        i += 1;
    }
    assert(nodes_fit(s));
    f.best.push((0, 0));
    let mut i: usize = 1;
    assert(best(s, 0) == Some((0int, 0int)));
    while i <= n
        invariant
            1 <= i <= n + 1,
            n == s.ext.len(),
            n <= MAX_RUN,
            f.wf(s),
            nodes_fit(s),
            f.best@.len() == i,
            f.filled(s),
        decreases n + 1 - i,
    {
        f.choose_start(i, Ghost(s));
        i += 1;
    }
    let mut back: Vec<(usize, usize)> = Vec::new();
    let mut end: usize = n;
    let ghost all = cuts(s, n as nat);
    assert(all =~= cuts(s, end as nat) + band_views(back@.reverse()));
    while end > 0
        invariant
            end <= n,
            n == s.ext.len(),
            n <= MAX_RUN,
            f.wf(s),
            nodes_fit(s),
            f.best@.len() == n + 1,
            f.filled(s),
            all == cuts(s, end as nat) + band_views(back@.reverse()),
        decreases end,
    {
        proof {
            lemma_best(s, end as nat);
        }
        let start: usize = f.best[end].1;
        assert(best(s, end as nat) == Some((f.best@[end as int].0 as int, start as int)));
        let ghost before = back@;
        back.push((start, end - 1));
        assert(band_views(back@.reverse()) =~= seq![(start as int, end - 1)] + band_views(
            before.reverse(),
        ));
        assert(cuts(s, start as nat) + band_views(back@.reverse()) =~= cuts(s, end as nat)
            + band_views(before.reverse()));
        end = start;
    }
    let mut bands: Vec<(usize, usize)> = Vec::new();
    let ghost turned = back@.reverse();
    assert(all =~= band_views(turned));
    let mut k: usize = back.len();
    let count: usize = back.len();
    while k > 0
        invariant
            k <= count,
            count == back@.len(),
            turned == back@.reverse(),
            bands@ == turned.take(count - k),
        decreases k,
    {
        k -= 1;
        bands.push(back[k]);
        assert(bands@ =~= turned.take(count - k));
    }
    assert(bands@ =~= turned);
    Ok(bands)
}

/// Whether `bands` split the first `n` nodes into bands within the budget,
/// one behind the other.
pub open spec fn is_split(s: Strip, bands: Seq<(int, int)>, n: nat) -> bool
    decreases bands.len(),
{
    if bands.len() == 0 {
        n == 0
    } else {
        let (j, i) = bands.last();
        0 <= j <= i && i + 1 == n && fits(s, j, i) && is_split(s, bands.drop_last(), j as nat)
    }
}

/// The cost of a split.
pub open spec fn split_cost(s: Strip, bands: Seq<(int, int)>) -> int
    decreases bands.len(),
{
    if bands.len() == 0 {
        0
    } else {
        split_cost(s, bands.drop_last()) + band_cost(s, bands.last().0, bands.last().1)
    }
}

/// The bands that are chosen split the chain within the budget, and cost
/// what the cheapest split costs.
proof fn lemma_cuts(s: Strip, n: nat)
    requires
        is_strip(s),
        nodes_fit(s),
        n <= s.ext.len(),
    ensures
        is_split(s, cuts(s, n), n),
        best(s, n) matches Some(y) && split_cost(s, cuts(s, n)) == y.0,
    decreases n,
{
    if n > 0 {
        lemma_best(s, n);
        let start = best(s, n)->Some_0.1;
        lemma_cuts(s, start as nat);
        assert(cuts(s, n).drop_last() =~= cuts(s, start as nat));
    }
}

proof fn lemma_no_cheaper(s: Strip, bands: Seq<(int, int)>, n: nat)
    requires
        is_strip(s),
        nodes_fit(s),
        n <= s.ext.len(),
        is_split(s, bands, n),
    ensures
        best(s, n) matches Some(y) && y.0 <= split_cost(s, bands),
    decreases bands.len(),
{
    if bands.len() > 0 {
        let (j, i) = bands.last();
        lemma_no_cheaper(s, bands.drop_last(), j as nat);
        lemma_best(s, n);
        assert(fits(s, j, n - 1));
    }
}

/// A node of a band that fits, fits by itself.
proof fn lemma_node_of_band(s: Strip, j: int, k: int, i: int)
    requires
        is_strip(s),
        0 <= j <= k <= i < s.ext.len(),
        fits(s, j, i),
    ensures
        fits(s, k, k),
{
    lemma_longer(s, j, k, i);
    lemma_sum(s, k + 1, i + 1);
    if k < i {
        assert(RANK_GAP * (i - k) >= RANK_GAP * (k - k) + TURN_PAD) by (nonlinear_arith)
            requires
                k < i,
                RANK_GAP == 3840000,
                TURN_PAD == 2304000,
        ;
    }
}

proof fn lemma_node_of_split(s: Strip, bands: Seq<(int, int)>, n: nat, k: int)
    requires
        is_strip(s),
        n <= s.ext.len(),
        is_split(s, bands, n),
        0 <= k < n,
    ensures
        fits(s, k, k),
    decreases bands.len(),
{
    let (j, i) = bands.last();
    if k < j {
        lemma_node_of_split(s, bands.drop_last(), j as nat, k);
    } else {
        lemma_node_of_band(s, j, k, i);
    }
}

/// Where a chain can be split into bands within the budget, folding does so,
/// and no other such split costs less.
pub proof fn law_fold_is_cheapest(s: Strip, other: Seq<(int, int)>)
    requires
        is_strip(s),
        is_split(s, other, s.ext.len()),
    ensures
        folded(s) matches Ok(bands) && is_split(s, bands, s.ext.len()) && split_cost(s, bands)
            <= split_cost(s, other),
{
    assert forall|k: int| 0 <= k < s.ext.len() implies #[trigger] fits(s, k, k) by {
        lemma_node_of_split(s, other, s.ext.len(), k);
    }
    lemma_cuts(s, s.ext.len());
    lemma_no_cheaper(s, other, s.ext.len());
}

/// What folding returns splits the chain into bands within the budget.
pub proof fn law_fold_is_a_split(s: Strip)
    requires
        is_strip(s),
    ensures
        folded(s) matches Ok(bands) ==> is_split(s, bands, s.ext.len()),
{
    if nodes_fit(s) {
        lemma_cuts(s, s.ext.len());
    }
}

} // verus!
