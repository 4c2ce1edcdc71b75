//! Spreading activation: weighted seeds propagate scores outward along
//! edges; the scored nodes are ranked by descending score with ties broken
//! by ascending id, truncated to the policy's bound, and returned with the
//! edges induced on the survivors. Scores are fixed-point (scale
//! `crate::WEIGHT_SCALE`) and saturate instead of overflowing.

use vstd::prelude::*;
use vstd::pervasive::VecAdditionalExecFns;
use vstd::string::StrSliceExecFns;

use crate::store::{lookup_node_seq, lemma_node_idx, MemStore, StoreV};
use crate::types::{ActivationPolicy, EdgeV, GraphEdge, GraphNode, NodeV, SubGraph};
use crate::WEIGHT_SCALE;

verus! {

/// Defensive cap on propagation hops.
pub const MAX_ACTIVATION_HOPS: usize = 32;

/// Clamp of a mathematical integer into the i64 range.
pub open spec fn clamp64(x: int) -> int {
    if x > i64::MAX {
        i64::MAX as int
    } else if x < i64::MIN {
        i64::MIN as int
    } else {
        x
    }
}

/// A contribution: the activating score times the edge weight, descaled
/// with truncation toward zero, saturating at the i64 bounds.
pub open spec fn scaled_spec(score: int, w: int) -> int {
    let p = score * w;
    let q = if p >= 0 {
        p / (WEIGHT_SCALE as int)
    } else {
        -((-p) / (WEIGHT_SCALE as int))
    };
    clamp64(q)
}

/// Saturating addition of two scores.
pub open spec fn sat_add_spec(a: int, b: int) -> int {
    clamp64(a + b)
}

/// Executable contribution computation, exact to `scaled_spec`.
pub fn scaled(score: i64, w: i64) -> (r: i64)
    ensures
        r as int == scaled_spec(score as int, w as int),
{
    proof {
        assert((score as int) * (w as int) <= 85070591730234615865843651857942052864int && (
        score as int) * (w as int) >= -85070591730234615865843651857942052864int)
            by (nonlinear_arith)
            requires
                -9223372036854775808int <= score <= 9223372036854775807int,
                -9223372036854775808int <= w <= 9223372036854775807int,
        ;
    }
    let p: i128 = (score as i128) * (w as i128);
    let m: u128 = if p >= 0 {
        p as u128
    } else {
        (-p) as u128
    };
    let d: u128 = m / (WEIGHT_SCALE as u128);
    proof {
        assert(p >= 0 ==> m == p);
        assert(p < 0 ==> m == -p);
    }
    if p >= 0 {
        if d > i64::MAX as u128 {
            i64::MAX
        } else {
            d as i64
        }
    } else {
        if d > 9223372036854775808u128 {
            i64::MIN
        } else if d == 9223372036854775808u128 {
            i64::MIN
        } else {
            -(d as i64)
        }
    }
}

/// Executable saturating addition, exact to `sat_add_spec`.
pub fn sat_add(a: i64, b: i64) -> (r: i64)
    ensures
        r as int == sat_add_spec(a as int, b as int),
{
    let s: i128 = (a as i128) + (b as i128);
    if s > i64::MAX as i128 {
        i64::MAX
    } else if s < i64::MIN as i128 {
        i64::MIN
    } else {
        s as i64
    }
}

/// Index of the first score entry under the id, or -1.
pub open spec fn score_idx(s: Seq<(Seq<char>, i64)>, id: Seq<char>) -> int
    decreases s.len(),
{
    if s.len() == 0 {
        -1
    } else if s[0].0 == id {
        0
    } else if score_idx(s.drop_first(), id) == -1 {
        -1
    } else {
        score_idx(s.drop_first(), id) + 1
    }
}

/// The score held under an id; an absent id scores zero.
pub open spec fn score_of(s: Seq<(Seq<char>, i64)>, id: Seq<char>) -> int {
    if score_idx(s, id) == -1 {
        0
    } else {
        s[score_idx(s, id)].1 as int
    }
}

/// Adds a contribution to an id's score, creating the entry when absent.
pub open spec fn add_score(s: Seq<(Seq<char>, i64)>, id: Seq<char>, delta: int) -> Seq<
    (Seq<char>, i64),
> {
    if score_idx(s, id) == -1 {
        s.push((id, clamp64(delta) as i64))
    } else {
        s.update(score_idx(s, id), (id, sat_add_spec(s[score_idx(s, id)].1 as int, delta) as i64))
    }
}

pub proof fn lemma_score_idx(s: Seq<(Seq<char>, i64)>, id: Seq<char>)
    ensures
        score_idx(s, id) == -1 ==> forall|j: int| 0 <= j < s.len() ==> s[j].0 != id,
        score_idx(s, id) != -1 ==> 0 <= score_idx(s, id) < s.len() && s[score_idx(s, id)].0 == id
            && forall|j: int| 0 <= j < score_idx(s, id) ==> s[j].0 != id,
    decreases s.len(),
{
    if s.len() > 0 && s[0].0 != id {
        lemma_score_idx(s.drop_first(), id);
        assert forall|j: int| 0 <= j < s.len() && score_idx(s, id) == -1 implies s[j].0 != id by {
            if j > 0 {
                assert(s.drop_first()[j - 1] == s[j]);
            }
        }
        if score_idx(s, id) != -1 {
            let r = score_idx(s.drop_first(), id);
            assert(s[r + 1] == s.drop_first()[r]);
            assert forall|j: int| 0 <= j < score_idx(s, id) implies s[j].0 != id by {
                if j > 0 {
                    assert(s.drop_first()[j - 1] == s[j]);
                }
            }
        }
    }
}

pub proof fn lemma_score_idx_first(s: Seq<(Seq<char>, i64)>, id: Seq<char>, k: int)
    requires
        0 <= k < s.len(),
        s[k].0 == id,
        forall|j: int| 0 <= j < k ==> s[j].0 != id,
    ensures
        score_idx(s, id) == k,
    decreases s.len(),
{
    if s[0].0 != id {
        assert(forall|j: int| 0 <= j < k - 1 ==> s.drop_first()[j] == s[j + 1]);
        assert(s.drop_first()[k - 1] == s[k]);
        lemma_score_idx_first(s.drop_first(), id, k - 1);
    }
}

/// The score table: id/score pairs in discovery order, ids distinct.
pub struct ScoreTable {
    pub entries: Vec<(String, i64)>,
}

impl View for ScoreTable {
    type V = Seq<(Seq<char>, i64)>;

    open spec fn view(&self) -> Seq<(Seq<char>, i64)> {
        Seq::new(self.entries@.len(), |i: int| (self.entries@[i].0@, self.entries@[i].1))
    }
}

pub open spec fn distinct_score_ids(s: Seq<(Seq<char>, i64)>) -> bool {
    forall|i: int, j: int| 0 <= i < j < s.len() ==> s[i].0 != s[j].0
}

/// `add_score` keeps ids distinct.
pub proof fn lemma_add_score_distinct(s: Seq<(Seq<char>, i64)>, id: Seq<char>, delta: int)
    requires
        distinct_score_ids(s),
    ensures
        distinct_score_ids(add_score(s, id, delta)),
        score_idx(add_score(s, id, delta), id) != -1,
        forall|k: Seq<char>|
            score_idx(s, k) != -1 ==> score_idx(#[trigger] add_score(s, id, delta), k) != -1,
    decreases s.len(),
{
    lemma_score_idx(s, id);
    let t = add_score(s, id, delta);
    if score_idx(s, id) == -1 {
        lemma_score_idx_first(t, id, s.len() as int);
    } else {
        let i = score_idx(s, id);
        assert forall|j: int| 0 <= j < i implies t[j].0 != id by {
            assert(t[j] == s[j]);
        }
        lemma_score_idx_first(t, id, i);
    }
    assert forall|k: Seq<char>| score_idx(s, k) != -1 implies score_idx(
        #[trigger] add_score(s, id, delta),
        k,
    ) != -1 by {
        lemma_score_idx(s, k);
        let m = score_idx(s, k);
        lemma_score_idx(t, k);
        if score_idx(t, k) == -1 {
            assert(t[m].0 == k);
        }
    }
}

impl ScoreTable {
    pub open spec fn wf(&self) -> bool {
        distinct_score_ids(self@)
    }

    pub fn new() -> (r: ScoreTable)
        ensures
            r@ == Seq::<(Seq<char>, i64)>::empty(),
            r.wf(),
    {
        let r = ScoreTable { entries: Vec::new() };
        proof {
            assert(r@ =~= Seq::<(Seq<char>, i64)>::empty());
        }
        r
    }

    /// The score under an id, zero when absent.
    pub fn get(&self, id: &String) -> (r: i64)
        ensures
            r as int == score_of(self@, id@),
    {
        let mut i: usize = 0;
        while i < self.entries.len()
            invariant
                i <= self.entries.len(),
                forall|j: int| 0 <= j < i ==> self@[j].0 != id@,
            decreases self.entries.len() - i,
        {
            if self.entries[i].0 == *id {
                proof {
                    lemma_score_idx_first(self@, id@, i as int);
                }
                return self.entries[i].1;
            }
            proof {
                assert(self@[i as int].0 == self.entries@[i as int].0@);
            }
            i = i + 1;
        }
        proof {
            lemma_score_idx(self@, id@);
        }
        0
    }

    /// Whether an id holds an entry.
    pub fn has(&self, id: &String) -> (r: bool)
        ensures
            r == (score_idx(self@, id@) != -1),
    {
        let mut i: usize = 0;
        while i < self.entries.len()
            invariant
                i <= self.entries.len(),
                forall|j: int| 0 <= j < i ==> self@[j].0 != id@,
            decreases self.entries.len() - i,
        {
            if self.entries[i].0 == *id {
                proof {
                    lemma_score_idx_first(self@, id@, i as int);
                }
                return true;
            }
            proof {
                assert(self@[i as int].0 == self.entries@[i as int].0@);
            }
            i = i + 1;
        }
        proof {
            lemma_score_idx(self@, id@);
        }
        false
    }

    /// Adds a contribution under an id, exactly as `add_score`.
    pub fn add(&mut self, id: &String, delta: i64)
        requires
            old(self).wf(),
        ensures
            final(self).wf(),
            final(self)@ == add_score(old(self)@, id@, delta as int),
    {
        proof {
            lemma_add_score_distinct(old(self)@, id@, delta as int);
        }
        let mut i: usize = 0;
        while i < self.entries.len()
            invariant
                *self == *old(self),
                i <= self.entries.len(),
                forall|j: int| 0 <= j < i ==> self@[j].0 != id@,
            decreases self.entries.len() - i,
        {
            if self.entries[i].0 == *id {
                proof {
                    lemma_score_idx_first(self@, id@, i as int);
                }
                let cur = self.entries[i].1;
                let updated = sat_add(cur, delta);
                self.entries.set(i, (id.clone(), updated));
                proof {
                    assert(self@ =~= add_score(old(self)@, id@, delta as int));
                }
                return ;
            }
            proof {
                assert(self@[i as int].0 == self.entries@[i as int].0@);
            }
            i = i + 1;
        }
        proof {
            lemma_score_idx(self@, id@);
        }
        let clamped = sat_add(0, delta);
        self.entries.push((id.clone(), clamped));
        proof {
            assert(self@ =~= add_score(old(self)@, id@, delta as int));
        }
    }
}

/// Strict lexicographic order on character sequences, compared from
/// position `i` on; code-point order, a shorter prefix first.
pub open spec fn lex_lt_from(a: Seq<char>, b: Seq<char>, i: int) -> bool
    decreases b.len() - i,
{
    if i >= b.len() {
        false
    } else if i >= a.len() {
        true
    } else if (a[i] as u32) < (b[i] as u32) {
        true
    } else if (a[i] as u32) > (b[i] as u32) {
        false
    } else {
        lex_lt_from(a, b, i + 1)
    }
}

pub open spec fn lex_lt(a: Seq<char>, b: Seq<char>) -> bool {
    lex_lt_from(a, b, 0)
}

/// Executable lexicographic comparison, exact to `lex_lt`.
pub fn str_lt(a: &String, b: &String) -> (r: bool)
    ensures
        r == lex_lt(a@, b@),
{
    let an = a.as_str().unicode_len();
    let bn = b.as_str().unicode_len();
    let mut i: usize = 0;
    loop
        invariant
            i <= an,
            i <= bn,
            an == a@.len(),
            bn == b@.len(),
            lex_lt(a@, b@) == lex_lt_from(a@, b@, i as int),
        decreases bn - i,
    {
        if i >= bn {
            return false;
        }
        if i >= an {
            return true;
        }
        let ca = a.as_str().get_char(i);
        let cb = b.as_str().get_char(i);
        if (ca as u32) < (cb as u32) {
            return true;
        }
        if (ca as u32) > (cb as u32) {
            return false;
        }
        i = i + 1;
    }
}

/// Ranking order: higher score first, ties broken by ascending id.
pub open spec fn rank_before(a: (Seq<char>, i64), b: (Seq<char>, i64)) -> bool {
    a.1 > b.1 || (a.1 == b.1 && lex_lt(a.0, b.0))
}

/// Executable ranking comparison, exact to `rank_before`.
pub fn rank_before_exec(a: &(String, i64), b: &(String, i64)) -> (r: bool)
    ensures
        r == rank_before((a.0@, a.1), (b.0@, b.1)),
{
    if a.1 > b.1 {
        true
    } else if a.1 == b.1 {
        str_lt(&a.0, &b.0)
    } else {
        false
    }
}

/// Insertion of one entry into a ranked sequence: before the first entry it
/// outranks.
pub open spec fn insert_ranked(s: Seq<(Seq<char>, i64)>, x: (Seq<char>, i64)) -> Seq<
    (Seq<char>, i64),
>
    decreases s.len(),
{
    if s.len() == 0 {
        seq![x]
    } else if rank_before(x, s[0]) {
        seq![x] + s
    } else {
        seq![s[0]] + insert_ranked(s.drop_first(), x)
    }
}

/// Insertion sort by rank: deterministic by construction.
pub open spec fn sort_ranked(s: Seq<(Seq<char>, i64)>) -> Seq<(Seq<char>, i64)>
    decreases s.len(),
{
    if s.len() == 0 {
        Seq::empty()
    } else {
        insert_ranked(sort_ranked(s.drop_first()), s[0])
    }
}

/// Inserting at the first position whose entry the new one outranks is what
/// `insert_ranked` does.
pub proof fn lemma_insert_ranked_at(s: Seq<(Seq<char>, i64)>, x: (Seq<char>, i64), p: int)
    requires
        0 <= p <= s.len(),
        forall|j: int| 0 <= j < p ==> !rank_before(x, s[j]),
        p < s.len() ==> rank_before(x, s[p]),
    ensures
        insert_ranked(s, x) == s.subrange(0, p) + seq![x] + s.subrange(p, s.len() as int),
    decreases s.len(),
{
    if s.len() == 0 {
        assert(insert_ranked(s, x) =~= s.subrange(0, p) + seq![x] + s.subrange(p, s.len() as int));
    } else if rank_before(x, s[0]) {
        assert(p == 0);
        assert(insert_ranked(s, x) =~= s.subrange(0, 0) + seq![x] + s.subrange(0, s.len() as int));
    } else {
        assert(p >= 1);
        assert(forall|j: int|
            0 <= j < p - 1 ==> s.drop_first()[j] == s[j + 1] && !rank_before(x, s[j + 1]));
        if p - 1 < s.drop_first().len() {
            assert(s.drop_first()[p - 1] == s[p]);
        }
        lemma_insert_ranked_at(s.drop_first(), x, p - 1);
        assert(insert_ranked(s, x) =~= s.subrange(0, p) + seq![x] + s.subrange(p, s.len() as int));
    }
}

/// Membership survives insertion into a ranked sequence.
pub proof fn lemma_insert_ranked_member(
    s: Seq<(Seq<char>, i64)>,
    x: (Seq<char>, i64),
    y: (Seq<char>, i64),
)
    ensures
        insert_ranked(s, x).contains(y) <==> (s.contains(y) || y == x),
    decreases s.len(),
{
    if s.len() == 0 {
        assert(insert_ranked(s, x)[0] == x);
    } else if rank_before(x, s[0]) {
        assert(insert_ranked(s, x) == seq![x] + s);
        if s.contains(y) || y == x {
            if y == x {
                assert((seq![x] + s)[0] == y);
            } else {
                let j = choose|j: int| 0 <= j < s.len() && s[j] == y;
                assert((seq![x] + s)[j + 1] == y);
            }
        }
        if insert_ranked(s, x).contains(y) {
            let j = choose|j: int|
                0 <= j < insert_ranked(s, x).len() && insert_ranked(s, x)[j] == y;
            if j == 0 {
            } else {
                assert(s[j - 1] == y);
            }
        }
    } else {
        lemma_insert_ranked_member(s.drop_first(), x, y);
        let t = insert_ranked(s, x);
        assert(t == seq![s[0]] + insert_ranked(s.drop_first(), x));
        if s.contains(y) || y == x {
            if s.contains(y) {
                let j = choose|j: int| 0 <= j < s.len() && s[j] == y;
                if j == 0 {
                    assert(t[0] == y);
                } else {
                    assert(s.drop_first()[j - 1] == y);
                    assert(s.drop_first().contains(y));
                    let m = choose|m: int|
                        0 <= m < insert_ranked(s.drop_first(), x).len() && insert_ranked(
                            s.drop_first(),
                            x,
                        )[m] == y;
                    assert(t[m + 1] == y);
                }
            } else {
                let m = choose|m: int|
                    0 <= m < insert_ranked(s.drop_first(), x).len() && insert_ranked(
                        s.drop_first(),
                        x,
                    )[m] == y;
                assert(t[m + 1] == y);
            }
        }
        if t.contains(y) {
            let j = choose|j: int| 0 <= j < t.len() && t[j] == y;
            if j == 0 {
                assert(s[0] == y);
            } else {
                assert(insert_ranked(s.drop_first(), x)[j - 1] == y);
                assert(insert_ranked(s.drop_first(), x).contains(y));
                if s.drop_first().contains(y) {
                    let m = choose|m: int| 0 <= m < s.drop_first().len() && s.drop_first()[m] == y;
                    assert(s[m + 1] == y);
                }
            }
        }
    }
}

/// Membership in the ranked result is membership in the input.
pub proof fn lemma_sort_ranked_member(s: Seq<(Seq<char>, i64)>, y: (Seq<char>, i64))
    ensures
        sort_ranked(s).contains(y) <==> s.contains(y),
    decreases s.len(),
{
    if s.len() > 0 {
        lemma_sort_ranked_member(s.drop_first(), y);
        lemma_insert_ranked_member(sort_ranked(s.drop_first()), s[0], y);
        if s.contains(y) {
            let j = choose|j: int| 0 <= j < s.len() && s[j] == y;
            if j > 0 {
                assert(s.drop_first()[j - 1] == y);
                assert(s.drop_first().contains(y));
            }
        }
        if s.drop_first().contains(y) {
            let m = choose|m: int| 0 <= m < s.drop_first().len() && s.drop_first()[m] == y;
            assert(s[m + 1] == y);
        }
    }
}

/// Executable insertion sort over a score table, exact to `sort_ranked`.
pub fn sort_entries(entries: Vec<(String, i64)>) -> (r: Vec<(String, i64)>)
    ensures
        ({
            let inv = Seq::new(entries@.len(), |i: int| (entries@[i].0@, entries@[i].1));
            let outv = Seq::new(r@.len(), |i: int| (r@[i].0@, r@[i].1));
            outv == sort_ranked(inv)
        }),
{
    let ghost inv = Seq::new(entries@.len(), |i: int| (entries@[i].0@, entries@[i].1));
    let mut out: Vec<(String, i64)> = Vec::new();
    let mut k: usize = entries.len();
    proof {
        assert(Seq::new(out@.len(), |i: int| (out@[i].0@, out@[i].1)) =~= sort_ranked(
            inv.subrange(k as int, inv.len() as int),
        ));
    }
    while k > 0
        invariant
            k <= entries.len(),
            inv == Seq::new(entries@.len(), |i: int| (entries@[i].0@, entries@[i].1)),
            Seq::new(out@.len(), |i: int| (out@[i].0@, out@[i].1)) == sort_ranked(
                inv.subrange(k as int, inv.len() as int),
            ),
        decreases k,
    {
        k = k - 1;
        let x = (entries[k].0.clone(), entries[k].1);
        let ghost xg = (entries@[k as int].0@, entries@[k as int].1);
        let ghost pre = Seq::new(out@.len(), |i: int| (out@[i].0@, out@[i].1));
        let mut p: usize = 0;
        while p < out.len() && !rank_before_exec(&x, &out[p])
            invariant
                p <= out.len(),
                forall|j: int| 0 <= j < p ==> !rank_before(xg, pre[j]),
                x.0@ == xg.0,
                x.1 == xg.1,
                pre == Seq::new(out@.len(), |i: int| (out@[i].0@, out@[i].1)),
            decreases out.len() - p,
        {
            proof {
                assert(pre[p as int] == (out@[p as int].0@, out@[p as int].1));
            }
            p = p + 1;
        }
        proof {
            if p < out.len() {
                assert(pre[p as int] == (out@[p as int].0@, out@[p as int].1));
                assert(rank_before(xg, pre[p as int]));
            }
            lemma_insert_ranked_at(pre, xg, p as int);
        }
        out.insert(p, x);
        proof {
            assert(inv.subrange(k as int, inv.len() as int).drop_first() =~= inv.subrange(
                k as int + 1,
                inv.len() as int,
            ));
            assert(inv.subrange(k as int, inv.len() as int)[0] == xg);
            assert(Seq::new(out@.len(), |i: int| (out@[i].0@, out@[i].1)) =~= pre.subrange(
                0,
                p as int,
            ) + seq![xg] + pre.subrange(p as int, pre.len() as int));
            assert(Seq::new(out@.len(), |i: int| (out@[i].0@, out@[i].1)) == sort_ranked(
                inv.subrange(k as int, inv.len() as int),
            ));
        }
    }
    proof {
        assert(inv.subrange(0, inv.len() as int) =~= inv);
    }
    out
}

/// View of an id/score pair vector.
pub open spec fn scores_view(v: Seq<(String, i64)>) -> Seq<(Seq<char>, i64)> {
    Seq::new(v.len(), |i: int| (v[i].0@, v[i].1))
}

/// Propagation state: the evolving score table and the frontier being
/// discovered for the next hop.
pub struct ActV {
    pub scores: Seq<(Seq<char>, i64)>,
    pub next: Seq<Seq<char>>,
}

/// One seed: its weight joins the id's score; a fresh id joins the
/// frontier.
pub open spec fn seed_step(st: ActV, seed: (Seq<char>, i64)) -> ActV {
    ActV {
        scores: add_score(st.scores, seed.0, seed.1 as int),
        next: if score_idx(st.scores, seed.0) == -1 {
            st.next.push(seed.0)
        } else {
            st.next
        },
    }
}

pub open spec fn seeds_init(seeds: Seq<(Seq<char>, i64)>, i: int) -> ActV
    decreases i,
{
    if i <= 0 {
        ActV { scores: Seq::empty(), next: Seq::empty() }
    } else {
        seed_step(seeds_init(seeds, i - 1), seeds[i - 1])
    }
}

/// One candidate edge while `u` activates: propagation follows the edge
/// src -> dst; the contribution is `u`'s current score scaled by the edge
/// weight. A newly scored id joins the frontier.
pub open spec fn prop_edge_step(st: ActV, u: Seq<char>, e: EdgeV) -> ActV {
    if e.src != u {
        st
    } else {
        ActV {
            scores: add_score(st.scores, e.dst, scaled_spec(score_of(st.scores, u), e.weight as int)),
            next: if score_idx(st.scores, e.dst) == -1 {
                st.next.push(e.dst)
            } else {
                st.next
            },
        }
    }
}

pub open spec fn prop_edges(store: StoreV, st: ActV, u: Seq<char>, i: int) -> ActV
    decreases i,
{
    if i <= 0 {
        st
    } else {
        prop_edge_step(prop_edges(store, st, u, i - 1), u, store.edges[i - 1])
    }
}

/// Expansion of the first `j` frontier ids. An id with no stored node
/// contributes nothing further.
pub open spec fn prop_frontier(store: StoreV, frontier: Seq<Seq<char>>, st: ActV, j: int) -> ActV
    decreases j,
{
    if j <= 0 {
        st
    } else {
        let prev = prop_frontier(store, frontier, st, j - 1);
        if lookup_node_seq(store.nodes, frontier[j - 1]) is None {
            prev
        } else {
            prop_edges(store, prev, frontier[j - 1], store.edges.len() as int)
        }
    }
}

pub open spec fn prop_hop(store: StoreV, st: ActV, frontier: Seq<Seq<char>>) -> ActV {
    prop_frontier(
        store,
        frontier,
        ActV { scores: st.scores, next: Seq::empty() },
        frontier.len() as int,
    )
}

pub open spec fn prop_hops(store: StoreV, st: ActV, frontier: Seq<Seq<char>>, h: int) -> ActV
    decreases h,
{
    if h <= 0 || frontier.len() == 0 {
        st
    } else {
        let st1 = prop_hop(store, st, frontier);
        prop_hops(store, st1, st1.next, h - 1)
    }
}

/// The whole propagation: seeds initialize the table, then up to `h` hops.
pub open spec fn activate_scores(store: StoreV, seeds: Seq<(Seq<char>, i64)>, h: int) -> ActV {
    let st0 = seeds_init(seeds, seeds.len() as int);
    prop_hops(store, st0, st0.next, h)
}

/// The propagation result's scores do not depend on the incoming frontier
/// buffer.
pub proof fn lemma_prop_hops_next_irrelevant(
    store: StoreV,
    st1: ActV,
    st2: ActV,
    frontier: Seq<Seq<char>>,
    h: int,
)
    requires
        st1.scores == st2.scores,
    ensures
        prop_hops(store, st1, frontier, h).scores == prop_hops(store, st2, frontier, h).scores,
    decreases h,
{
    if h > 0 && frontier.len() > 0 {
        assert(prop_hop(store, st1, frontier) == prop_hop(store, st2, frontier));
        let n1 = prop_hop(store, st1, frontier);
        lemma_prop_hops_next_irrelevant(store, n1, n1, n1.next, h - 1);
    }
}

/// Whether an id is one of the seeds.
pub open spec fn is_seed(seeds: Seq<(Seq<char>, i64)>, id: Seq<char>) -> bool {
    exists|k: int| 0 <= k < seeds.len() && seeds[k].0 == id
}

/// The scored ids that exist as stored nodes, in table order.
pub open spec fn candidates_upto(store: StoreV, scores: Seq<(Seq<char>, i64)>, i: int) -> Seq<
    (Seq<char>, i64),
>
    decreases i,
{
    if i <= 0 {
        Seq::empty()
    } else {
        let prev = candidates_upto(store, scores, i - 1);
        if lookup_node_seq(store.nodes, scores[i - 1].0) is Some {
            prev.push(scores[i - 1])
        } else {
            prev
        }
    }
}

/// Selection pass over the ranked entries: ids whose seed-ness matches
/// `want_seed`, in rank order, while the budget lasts.
pub open spec fn sel_upto(
    ranked: Seq<(Seq<char>, i64)>,
    seeds: Seq<(Seq<char>, i64)>,
    want_seed: bool,
    budget: int,
    i: int,
) -> Seq<Seq<char>>
    decreases i,
{
    if i <= 0 {
        Seq::empty()
    } else {
        let prev = sel_upto(ranked, seeds, want_seed, budget, i - 1);
        if is_seed(seeds, ranked[i - 1].0) == want_seed && prev.len() < budget {
            prev.push(ranked[i - 1].0)
        } else {
            prev
        }
    }
}

/// The selected entries in rank order: those whose id one of the selection
/// passes chose.
pub open spec fn emit_upto(
    ranked: Seq<(Seq<char>, i64)>,
    sel1: Seq<Seq<char>>,
    sel2: Seq<Seq<char>>,
    i: int,
) -> Seq<(Seq<char>, i64)>
    decreases i,
{
    if i <= 0 {
        Seq::empty()
    } else {
        let prev = emit_upto(ranked, sel1, sel2, i - 1);
        if crate::traverse::seq_contains_str(sel1, ranked[i - 1].0) || crate::traverse::seq_contains_str(
            sel2,
            ranked[i - 1].0,
        ) {
            prev.push(ranked[i - 1])
        } else {
            prev
        }
    }
}

pub open spec fn ids_of(s: Seq<(Seq<char>, i64)>) -> Seq<Seq<char>> {
    Seq::new(s.len(), |i: int| s[i].0)
}

/// The stored nodes of the emitted entries, in rank order.
pub open spec fn nodes_of_scored(store: StoreV, scored: Seq<(Seq<char>, i64)>, i: int) -> Seq<NodeV>
    decreases i,
{
    if i <= 0 {
        Seq::empty()
    } else {
        let prev = nodes_of_scored(store, scored, i - 1);
        match lookup_node_seq(store.nodes, scored[i - 1].0) {
            Option::Some(n) => prev.push(n),
            Option::None => prev,
        }
    }
}

/// The store edges both of whose endpoints were selected, in store order.
pub open spec fn induced_edges(store: StoreV, kept: Seq<Seq<char>>, i: int) -> Seq<EdgeV>
    decreases i,
{
    if i <= 0 {
        Seq::empty()
    } else {
        let prev = induced_edges(store, kept, i - 1);
        let e = store.edges[i - 1];
        if crate::traverse::seq_contains_str(kept, e.src) && crate::traverse::seq_contains_str(
            kept,
            e.dst,
        ) {
            prev.push(e)
        } else {
            prev
        }
    }
}

/// Activation result: nodes, induced edges, and a score per node, all in
/// rank order.
pub struct ActResultV {
    pub nodes: Seq<NodeV>,
    pub edges: Seq<EdgeV>,
    pub scores: Seq<(Seq<char>, i64)>,
}

/// The whole activation, from store contents, seeds and policy to the
/// ranked, truncated sub-graph. Deterministic by construction.
pub open spec fn activate_spec(
    store: StoreV,
    seeds: Seq<(Seq<char>, i64)>,
    policy: ActivationPolicy,
) -> ActResultV {
    let hops = if policy.max_hops > MAX_ACTIVATION_HOPS {
        MAX_ACTIVATION_HOPS as int
    } else {
        policy.max_hops as int
    };
    let fin = activate_scores(store, seeds, hops);
    let ranked = sort_ranked(candidates_upto(store, fin.scores, fin.scores.len() as int));
    let sel1 = sel_upto(ranked, seeds, true, policy.top_n as int, ranked.len() as int);
    let sel2 = sel_upto(
        ranked,
        seeds,
        false,
        policy.top_n - sel1.len(),
        ranked.len() as int,
    );
    let emitted = emit_upto(ranked, sel1, sel2, ranked.len() as int);
    ActResultV {
        nodes: nodes_of_scored(store, emitted, emitted.len() as int),
        edges: induced_edges(store, ids_of(emitted), store.edges.len() as int),
        scores: emitted,
    }
}

/// Law: activation is deterministic. Two results that both satisfy the
/// activation contract on the same store contents, seeds and policy are the
/// same sub-graph: same nodes, same edges, same scores.
pub proof fn lemma_activation_deterministic(
    store: StoreV,
    seeds: Seq<(Seq<char>, i64)>,
    policy: ActivationPolicy,
    r1: ActResultV,
    r2: ActResultV,
)
    requires
        r1 == activate_spec(store, seeds, policy),
        r2 == activate_spec(store, seeds, policy),
    ensures
        r1.nodes == r2.nodes,
        r1.edges == r2.edges,
        r1.scores == r2.scores,
{
}

/// A selection pass never exceeds its budget.
pub proof fn lemma_sel_budget(
    ranked: Seq<(Seq<char>, i64)>,
    seeds: Seq<(Seq<char>, i64)>,
    want_seed: bool,
    budget: int,
    i: int,
)
    ensures
        sel_upto(ranked, seeds, want_seed, budget, i).len() <= (if budget >= 0 {
            budget
        } else {
            0
        }),
    decreases i,
{
    if i > 0 {
        lemma_sel_budget(ranked, seeds, want_seed, budget, i - 1);
    }
}

/// Law: a policy of `top_n == 0` selects nothing: no nodes, no edges, no
/// scores.
pub proof fn lemma_top_n_zero_empty(
    store: StoreV,
    seeds: Seq<(Seq<char>, i64)>,
    policy: ActivationPolicy,
)
    requires
        policy.top_n == 0,
    ensures
        activate_spec(store, seeds, policy).nodes == Seq::<NodeV>::empty(),
        activate_spec(store, seeds, policy).edges == Seq::<EdgeV>::empty(),
        activate_spec(store, seeds, policy).scores == Seq::<(Seq<char>, i64)>::empty(),
{
    let hops = if policy.max_hops > MAX_ACTIVATION_HOPS {
        MAX_ACTIVATION_HOPS as int
    } else {
        policy.max_hops as int
    };
    let fin = activate_scores(store, seeds, hops);
    let ranked = sort_ranked(candidates_upto(store, fin.scores, fin.scores.len() as int));
    lemma_sel_budget(ranked, seeds, true, 0, ranked.len() as int);
    let sel1 = sel_upto(ranked, seeds, true, 0, ranked.len() as int);
    assert(sel1 =~= Seq::<Seq<char>>::empty());
    lemma_sel_budget(ranked, seeds, false, 0, ranked.len() as int);
    let sel2 = sel_upto(ranked, seeds, false, 0, ranked.len() as int);
    assert(sel2 =~= Seq::<Seq<char>>::empty());
    lemma_emit_empty_sel(ranked, sel1, sel2, ranked.len() as int);
    let emitted = emit_upto(ranked, sel1, sel2, ranked.len() as int);
    lemma_induced_empty(store, ids_of(emitted), store.edges.len() as int);
}

pub proof fn lemma_emit_empty_sel(
    ranked: Seq<(Seq<char>, i64)>,
    sel1: Seq<Seq<char>>,
    sel2: Seq<Seq<char>>,
    i: int,
)
    requires
        sel1.len() == 0,
        sel2.len() == 0,
    ensures
        emit_upto(ranked, sel1, sel2, i) == Seq::<(Seq<char>, i64)>::empty(),
    decreases i,
{
    if i > 0 {
        lemma_emit_empty_sel(ranked, sel1, sel2, i - 1);
    }
}

pub proof fn lemma_induced_empty(store: StoreV, kept: Seq<Seq<char>>, i: int)
    requires
        kept.len() == 0,
    ensures
        induced_edges(store, kept, i) == Seq::<EdgeV>::empty(),
    decreases i,
{
    if i > 0 {
        lemma_induced_empty(store, kept, i - 1);
    }
}


/// Whether a score list holds an entry under the id.
pub open spec fn has_score_id(s: Seq<(Seq<char>, i64)>, id: Seq<char>) -> bool {
    exists|j: int| 0 <= j < s.len() && s[j].0 == id
}

/// Insertion keeps ids distinct when the inserted id is fresh, and
/// introduces no id beyond the inserted one.
pub proof fn lemma_insert_ranked_distinct(s: Seq<(Seq<char>, i64)>, x: (Seq<char>, i64))
    requires
        distinct_score_ids(s),
        !has_score_id(s, x.0),
    ensures
        distinct_score_ids(insert_ranked(s, x)),
        forall|id: Seq<char>|
            #[trigger] has_score_id(insert_ranked(s, x), id) ==> has_score_id(s, id) || id == x.0,
    decreases s.len(),
{
    if s.len() == 0 {
    } else if rank_before(x, s[0]) {
        let t = seq![x] + s;
        assert forall|i: int, j: int| 0 <= i < j < t.len() implies t[i].0 != t[j].0 by {
            if i == 0 {
                assert(t[j] == s[j - 1]);
                if s[j - 1].0 == x.0 {
                    assert(has_score_id(s, x.0));
                }
            } else {
                assert(t[i] == s[i - 1] && t[j] == s[j - 1]);
            }
        }
        assert forall|id: Seq<char>| #[trigger] has_score_id(t, id) implies has_score_id(s, id)
            || id == x.0 by {
            let j = choose|j: int| 0 <= j < t.len() && t[j].0 == id;
            if j > 0 {
                assert(s[j - 1].0 == id);
            }
        }
    } else {
        let d = s.drop_first();
        assert forall|i: int, j: int| 0 <= i < j < d.len() implies d[i].0 != d[j].0 by {
            assert(d[i] == s[i + 1] && d[j] == s[j + 1]);
        }
        if has_score_id(d, x.0) {
            let m = choose|m: int| 0 <= m < d.len() && d[m].0 == x.0;
            assert(s[m + 1].0 == x.0);
            assert(has_score_id(s, x.0));
        }
        lemma_insert_ranked_distinct(d, x);
        let ins = insert_ranked(d, x);
        let t = seq![s[0]] + ins;
        assert(insert_ranked(s, x) == t);
        assert forall|i: int, j: int| 0 <= i < j < t.len() implies t[i].0 != t[j].0 by {
            if i == 0 {
                assert(t[j] == ins[j - 1]);
                if ins[j - 1].0 == s[0].0 {
                    assert(has_score_id(ins, s[0].0));
                    if has_score_id(d, s[0].0) {
                        let m = choose|m: int| 0 <= m < d.len() && d[m].0 == s[0].0;
                        assert(s[m + 1].0 == s[0].0);
                    }
                    if s[0].0 == x.0 {
                        assert(has_score_id(s, x.0));
                    }
                }
            } else {
                assert(t[i] == ins[i - 1] && t[j] == ins[j - 1]);
            }
        }
        assert forall|id: Seq<char>| #[trigger] has_score_id(t, id) implies has_score_id(s, id)
            || id == x.0 by {
            let j = choose|j: int| 0 <= j < t.len() && t[j].0 == id;
            if j == 0 {
                assert(s[0].0 == id);
            } else {
                assert(ins[j - 1].0 == id);
                assert(has_score_id(ins, id));
                if has_score_id(d, id) {
                    let m = choose|m: int| 0 <= m < d.len() && d[m].0 == id;
                    assert(s[m + 1].0 == id);
                }
            }
        }
    }
}

/// Ranking keeps ids distinct and introduces none.
pub proof fn lemma_sort_ranked_distinct(s: Seq<(Seq<char>, i64)>)
    requires
        distinct_score_ids(s),
    ensures
        distinct_score_ids(sort_ranked(s)),
        forall|id: Seq<char>| #[trigger] has_score_id(sort_ranked(s), id) ==> has_score_id(s, id),
    decreases s.len(),
{
    if s.len() > 0 {
        let d = s.drop_first();
        assert forall|i: int, j: int| 0 <= i < j < d.len() implies d[i].0 != d[j].0 by {
            assert(d[i] == s[i + 1] && d[j] == s[j + 1]);
        }
        lemma_sort_ranked_distinct(d);
        let sorted = sort_ranked(d);
        if has_score_id(sorted, s[0].0) {
            assert(has_score_id(d, s[0].0));
            let m = choose|m: int| 0 <= m < d.len() && d[m].0 == s[0].0;
            assert(s[m + 1].0 == s[0].0);
        }
        lemma_insert_ranked_distinct(sorted, s[0]);
        assert forall|id: Seq<char>| #[trigger] has_score_id(sort_ranked(s), id) implies
            has_score_id(s, id) by {
            if has_score_id(sorted, id) {
                assert(has_score_id(d, id));
                let m = choose|m: int| 0 <= m < d.len() && d[m].0 == id;
                assert(s[m + 1].0 == id);
            } else {
                assert(id == s[0].0);
            }
        }
    }
}

/// Candidate filtering keeps ids distinct, each candidate being one of the
/// table's entries.
pub proof fn lemma_candidates_distinct(store: StoreV, scores: Seq<(Seq<char>, i64)>, i: int)
    requires
        distinct_score_ids(scores),
        0 <= i <= scores.len(),
    ensures
        distinct_score_ids(candidates_upto(store, scores, i)),
        forall|p: int|
            0 <= p < candidates_upto(store, scores, i).len() ==> exists|m: int|
                0 <= m < i && scores[m] == #[trigger] candidates_upto(store, scores, i)[p],
    decreases i,
{
    if i > 0 {
        lemma_candidates_distinct(store, scores, i - 1);
        let prev = candidates_upto(store, scores, i - 1);
        let cur = candidates_upto(store, scores, i);
        if lookup_node_seq(store.nodes, scores[i - 1].0) is Some {
            assert forall|a: int, b: int| 0 <= a < b < cur.len() implies cur[a].0 != cur[b].0 by {
                if b == prev.len() {
                    if prev[a].0 == scores[i - 1].0 {
                        let m = choose|m: int| 0 <= m < i - 1 && scores[m] == prev[a];
                        assert(scores[m].0 == scores[i - 1].0);
                    }
                }
            }
        }
    }
}

/// Whether one of the first `i` ranked entries carries the text as its id.
pub open spec fn ranked_has_id(ranked: Seq<(Seq<char>, i64)>, text: Seq<char>, i: int) -> bool {
    exists|m: int| 0 <= m < i && ranked[m].0 == text
}

/// With one seed and distinct ranked ids, at most one ranked entry is a
/// seed entry.
pub proof fn lemma_single_seed_count(
    ranked: Seq<(Seq<char>, i64)>,
    text: Seq<char>,
    w: i64,
    i: int,
)
    requires
        distinct_score_ids(ranked),
        0 <= i <= ranked.len(),
    ensures
        0 <= seed_entry_count(ranked, seq![(text, w)], i) <= 1,
        seed_entry_count(ranked, seq![(text, w)], i) >= 1 <==> ranked_has_id(ranked, text, i),
    decreases i,
{
    let seeds = seq![(text, w)];
    if i > 0 {
        lemma_single_seed_count(ranked, text, w, i - 1);
        assert(is_seed(seeds, ranked[i - 1].0) <==> ranked[i - 1].0 == text) by {
            if ranked[i - 1].0 == text {
                assert(seeds[0].0 == ranked[i - 1].0);
            }
            if is_seed(seeds, ranked[i - 1].0) {
                let kk = choose|kk: int|
                    0 <= kk < seeds.len() && seeds[kk].0 == ranked[i - 1].0;
                assert(kk == 0);
                assert(seeds[0].0 == text);
            }
        }
        if ranked[i - 1].0 == text {
            if ranked_has_id(ranked, text, i - 1) {
                let m = choose|m: int| 0 <= m < i - 1 && ranked[m].0 == text;
                assert(ranked[m].0 == ranked[i - 1].0);
                assert(false);
            }
            assert(seed_entry_count(ranked, seeds, i) == 1);
            assert(ranked_has_id(ranked, text, i)) by {
                assert(ranked[i - 1].0 == text);
            }
        } else {
            assert(seed_entry_count(ranked, seeds, i) == seed_entry_count(ranked, seeds, i - 1));
            assert(ranked_has_id(ranked, text, i) <==> ranked_has_id(ranked, text, i - 1)) by {
                if ranked_has_id(ranked, text, i) {
                    let m = choose|m: int| 0 <= m < i && ranked[m].0 == text;
                    assert(m < i - 1);
                    assert(ranked[m].0 == text);
                }
                if ranked_has_id(ranked, text, i - 1) {
                    let m = choose|m: int| 0 <= m < i - 1 && ranked[m].0 == text;
                    assert(ranked[m].0 == text);
                }
            }
        }
    }
}

/// Whether a seed list names an id, decided executably.
pub fn is_seed_exec(seeds: &Vec<(String, i64)>, id: &String) -> (r: bool)
    ensures
        r == is_seed(scores_view(seeds@), id@),
{
    let mut k: usize = 0;
    while k < seeds.len()
        invariant
            k <= seeds.len(),
            forall|j: int| 0 <= j < k ==> scores_view(seeds@)[j].0 != id@,
        decreases seeds.len() - k,
    {
        if seeds[k].0 == *id {
            proof {
                assert(scores_view(seeds@)[k as int].0 == id@);
            }
            return true;
        }
        proof {
            assert(scores_view(seeds@)[k as int].0 == seeds@[k as int].0@);
        }
        k = k + 1;
    }
    false
}

/// Spreading activation over one scope's store: seeds propagate outward,
/// the scored stored nodes are ranked and truncated to the policy's bound
/// (seeds first), and the result is exactly the specification activation.
pub fn activate(store: &MemStore, seeds: &Vec<(String, i64)>, policy: &ActivationPolicy) -> (r:
    SubGraph)
    ensures
        ({
            let res = activate_spec(store@, scores_view(seeds@), *policy);
            r.nodes.deep_view() == res.nodes && r.edges.deep_view() == res.edges && scores_view(
                r.scores@,
            ) == res.scores
        }),
{
    let ghost storev = store@;
    let ghost seedsv = scores_view(seeds@);
    let hops: usize = if policy.max_hops > MAX_ACTIVATION_HOPS {
        MAX_ACTIVATION_HOPS
    } else {
        policy.max_hops
    };
    let ghost fin = activate_scores(storev, seedsv, hops as int);

    let mut table = ScoreTable::new();
    let mut frontier: Vec<String> = Vec::new();
    proof {
        assert(table@ =~= seeds_init(seedsv, 0).scores);
        assert(frontier.deep_view() =~= seeds_init(seedsv, 0).next);
    }
    let mut i: usize = 0;
    while i < seeds.len()
        invariant
            i <= seeds.len(),
            table.wf(),
            table@ == seeds_init(seedsv, i as int).scores,
            frontier.deep_view() == seeds_init(seedsv, i as int).next,
        decreases seeds.len() - i,
    {
        proof {
            assert(seedsv[i as int] == (seeds@[i as int].0@, seeds@[i as int].1));
        }
        let fresh = !table.has(&seeds[i].0);
        let w = seeds[i].1;
        table.add(&seeds[i].0, w);
        if fresh {
            frontier.push(seeds[i].0.clone());
            proof {
                assert(frontier.deep_view() =~= seeds_init(seedsv, i as int).next.push(
                    seedsv[i as int].0,
                ));
            }
        }
        i = i + 1;
    }
    proof {
        let st0 = seeds_init(seedsv, seedsv.len() as int);
        lemma_prop_hops_next_irrelevant(
            storev,
            st0,
            (ActV { scores: table@, next: Seq::empty() }),
            st0.next,
            hops as int,
        );
    }

    let mut hop: usize = 0;
    while hop < hops && frontier.len() > 0
        invariant
            hop <= hops,
            table.wf(),
            prop_hops(
                storev,
                (ActV { scores: table@, next: Seq::empty() }),
                frontier.deep_view(),
                hops - hop,
            ).scores == fin.scores,
        decreases hops - hop,
    {
        let ghost cur = ActV { scores: table@, next: Seq::empty() };
        let ghost frontv = frontier.deep_view();
        let mut next: Vec<String> = Vec::new();
        proof {
            assert(next.deep_view() =~= Seq::<Seq<char>>::empty());
        }
        let mut j: usize = 0;
        while j < frontier.len()
            invariant
                j <= frontier.len(),
                table.wf(),
                frontier.deep_view() == frontv,
                prop_frontier(storev, frontv, cur, j as int).scores == table@,
                prop_frontier(storev, frontv, cur, j as int).next == next.deep_view(),
            decreases frontier.len() - j,
        {
            let ghost stj = prop_frontier(storev, frontv, cur, j as int);
            let u = frontier[j].clone();
            proof {
                assert(frontv[j as int] == frontier@[j as int]@);
                assert(u@ == frontv[j as int]);
            }
            match store.get_node(u.as_str()) {
                Option::None => {
                    proof {
                        assert(lookup_node_seq(storev.nodes, u@) is None);
                    }
                },
                Option::Some(_) => {
                    let mut ei: usize = 0;
                    while ei < store.edges.len()
                        invariant
                            ei <= store.edges.len(),
                            table.wf(),
                            u@ == frontv[j as int],
                            prop_edges(storev, stj, u@, ei as int).scores == table@,
                            prop_edges(storev, stj, u@, ei as int).next == next.deep_view(),
                        decreases store.edges.len() - ei,
                    {
                        let ghost sti = prop_edges(storev, stj, u@, ei as int);
                        proof {
                            assert(storev.edges[ei as int] == store.edges@[ei as int]@);
                        }
                        let matches_src = store.edges[ei].src == u;
                        if matches_src {
                            let su = table.get(&u);
                            let c = scaled(su, store.edges[ei].weight);
                            let fresh = !table.has(&store.edges[ei].dst);
                            table.add(&store.edges[ei].dst, c);
                            if fresh {
                                next.push(store.edges[ei].dst.clone());
                                proof {
                                    assert(next.deep_view() =~= sti.next.push(
                                        storev.edges[ei as int].dst,
                                    ));
                                }
                            }
                        }
                        ei = ei + 1;
                    }
                    proof {
                        assert(prop_edges(storev, stj, u@, store.edges@.len() as int)
                            == prop_frontier(storev, frontv, cur, j + 1));
                    }
                },
            }
            j = j + 1;
        }
        proof {
            let st1 = prop_hop(storev, cur, frontv);
            assert(prop_frontier(storev, frontv, cur, frontv.len() as int) == st1);
            lemma_prop_hops_next_irrelevant(
                storev,
                st1,
                (ActV { scores: table@, next: Seq::empty() }),
                st1.next,
                hops - hop - 1,
            );
        }
        frontier = next;
        hop = hop + 1;
    }
    proof {
        assert(prop_hops(
            storev,
            (ActV { scores: table@, next: Seq::empty() }),
            frontier.deep_view(),
            hops - hop,
        ).scores == table@);
        assert(table@ == fin.scores);
    }

    let ghost tablev = table@;
    let mut cands: Vec<(String, i64)> = Vec::new();
    proof {
        assert(scores_view(cands@) =~= candidates_upto(storev, tablev, 0));
    }
    let mut ci: usize = 0;
    while ci < table.entries.len()
        invariant
            ci <= table.entries.len(),
            table@ == tablev,
            scores_view(cands@) == candidates_upto(storev, tablev, ci as int),
        decreases table.entries.len() - ci,
    {
        proof {
            assert(tablev[ci as int] == (table.entries@[ci as int].0@, table.entries@[ci as int].1));
        }
        match store.get_node(table.entries[ci].0.as_str()) {
            Option::Some(_) => {
                let sc = table.entries[ci].1;
                cands.push((table.entries[ci].0.clone(), sc));
                proof {
                    assert(scores_view(cands@) =~= candidates_upto(storev, tablev, ci as int).push(
                        tablev[ci as int],
                    ));
                }
            },
            Option::None => {},
        }
        ci = ci + 1;
    }

    let ranked = sort_entries(cands);
    let ghost rankedv = sort_ranked(candidates_upto(storev, tablev, tablev.len() as int));
    proof {
        assert(scores_view(ranked@) == rankedv);
    }

    let mut sel1: Vec<String> = Vec::new();
    proof {
        assert(sel1.deep_view() =~= sel_upto(rankedv, seedsv, true, policy.top_n as int, 0));
    }
    let mut si: usize = 0;
    while si < ranked.len()
        invariant
            si <= ranked.len(),
            scores_view(ranked@) == rankedv,
            sel1.deep_view() == sel_upto(rankedv, seedsv, true, policy.top_n as int, si as int),
            sel1.len() <= policy.top_n,
        decreases ranked.len() - si,
    {
        proof {
            assert(rankedv[si as int] == (ranked@[si as int].0@, ranked@[si as int].1));
        }
        if sel1.len() < policy.top_n && is_seed_exec(seeds, &ranked[si].0) {
            sel1.push(ranked[si].0.clone());
            proof {
                assert(sel1.deep_view() =~= sel_upto(
                    rankedv,
                    seedsv,
                    true,
                    policy.top_n as int,
                    si as int,
                ).push(rankedv[si as int].0));
            }
        }
        si = si + 1;
    }
    let budget2: usize = policy.top_n - sel1.len();

    let mut sel2: Vec<String> = Vec::new();
    proof {
        assert(sel2.deep_view() =~= sel_upto(rankedv, seedsv, false, budget2 as int, 0));
    }
    let mut ti: usize = 0;
    while ti < ranked.len()
        invariant
            ti <= ranked.len(),
            scores_view(ranked@) == rankedv,
            sel2.deep_view() == sel_upto(rankedv, seedsv, false, budget2 as int, ti as int),
            sel2.len() <= budget2,
        decreases ranked.len() - ti,
    {
        proof {
            assert(rankedv[ti as int] == (ranked@[ti as int].0@, ranked@[ti as int].1));
        }
        if sel2.len() < budget2 && !is_seed_exec(seeds, &ranked[ti].0) {
            sel2.push(ranked[ti].0.clone());
            proof {
                assert(sel2.deep_view() =~= sel_upto(
                    rankedv,
                    seedsv,
                    false,
                    budget2 as int,
                    ti as int,
                ).push(rankedv[ti as int].0));
            }
        }
        ti = ti + 1;
    }
    let ghost sel1v = sel1.deep_view();
    let ghost sel2v = sel2.deep_view();

    let mut emitted: Vec<(String, i64)> = Vec::new();
    proof {
        assert(scores_view(emitted@) =~= emit_upto(rankedv, sel1v, sel2v, 0));
    }
    let mut mi: usize = 0;
    while mi < ranked.len()
        invariant
            mi <= ranked.len(),
            scores_view(ranked@) == rankedv,
            sel1.deep_view() == sel1v,
            sel2.deep_view() == sel2v,
            scores_view(emitted@) == emit_upto(rankedv, sel1v, sel2v, mi as int),
        decreases ranked.len() - mi,
    {
        proof {
            assert(rankedv[mi as int] == (ranked@[mi as int].0@, ranked@[mi as int].1));
        }
        if crate::traverse::contains_str(&sel1, &ranked[mi].0) || crate::traverse::contains_str(
            &sel2,
            &ranked[mi].0,
        ) {
            let sc = ranked[mi].1;
            emitted.push((ranked[mi].0.clone(), sc));
            proof {
                assert(scores_view(emitted@) =~= emit_upto(rankedv, sel1v, sel2v, mi as int).push(
                    rankedv[mi as int],
                ));
            }
        }
        mi = mi + 1;
    }
    let ghost emittedv = emit_upto(rankedv, sel1v, sel2v, rankedv.len() as int);
    proof {
        assert(scores_view(emitted@) == emittedv);
    }

    let mut out_nodes: Vec<GraphNode> = Vec::new();
    proof {
        assert(out_nodes.deep_view() =~= nodes_of_scored(storev, emittedv, 0));
    }
    let mut ni: usize = 0;
    while ni < emitted.len()
        invariant
            ni <= emitted.len(),
            scores_view(emitted@) == emittedv,
            out_nodes.deep_view() == nodes_of_scored(storev, emittedv, ni as int),
        decreases emitted.len() - ni,
    {
        proof {
            assert(emittedv[ni as int] == (emitted@[ni as int].0@, emitted@[ni as int].1));
        }
        match store.get_node(emitted[ni].0.as_str()) {
            Option::Some(n) => {
                out_nodes.push(n);
                proof {
                    assert(out_nodes.deep_view() =~= nodes_of_scored(
                        storev,
                        emittedv,
                        ni as int,
                    ).push(lookup_node_seq(storev.nodes, emittedv[ni as int].0)->Some_0));
                }
            },
            Option::None => {},
        }
        ni = ni + 1;
    }

    let mut kept: Vec<String> = Vec::new();
    proof {
        assert(kept.deep_view() =~= ids_of(emittedv).subrange(0, 0));
    }
    let mut ki: usize = 0;
    while ki < emitted.len()
        invariant
            ki <= emitted.len(),
            scores_view(emitted@) == emittedv,
            kept.deep_view() == ids_of(emittedv).subrange(0, ki as int),
        decreases emitted.len() - ki,
    {
        proof {
            assert(emittedv[ki as int] == (emitted@[ki as int].0@, emitted@[ki as int].1));
        }
        kept.push(emitted[ki].0.clone());
        proof {
            assert(kept.deep_view() =~= ids_of(emittedv).subrange(0, ki + 1));
        }
        ki = ki + 1;
    }
    let ghost keptv = ids_of(emittedv);
    proof {
        assert(ids_of(emittedv).subrange(0, emittedv.len() as int) =~= keptv);
    }

    let mut out_edges: Vec<GraphEdge> = Vec::new();
    proof {
        assert(out_edges.deep_view() =~= induced_edges(storev, keptv, 0));
    }
    let mut xi: usize = 0;
    while xi < store.edges.len()
        invariant
            xi <= store.edges.len(),
            kept.deep_view() == keptv,
            out_edges.deep_view() == induced_edges(storev, keptv, xi as int),
        decreases store.edges.len() - xi,
    {
        proof {
            assert(storev.edges[xi as int] == store.edges@[xi as int]@);
        }
        if crate::traverse::contains_str(&kept, &store.edges[xi].src) && crate::traverse::contains_str(
            &kept,
            &store.edges[xi].dst,
        ) {
            out_edges.push(store.edges[xi].clone());
            proof {
                assert(out_edges.deep_view() =~= induced_edges(storev, keptv, xi as int).push(
                    storev.edges[xi as int],
                ));
            }
        }
        xi = xi + 1;
    }

    SubGraph { nodes: out_nodes, edges: out_edges, scores: emitted }
}

/// Count of ranked entries whose id is a seed, among the first `i`.
pub open spec fn seed_entry_count(
    ranked: Seq<(Seq<char>, i64)>,
    seeds: Seq<(Seq<char>, i64)>,
    i: int,
) -> int
    decreases i,
{
    if i <= 0 {
        0
    } else {
        seed_entry_count(ranked, seeds, i - 1) + (if is_seed(seeds, ranked[i - 1].0) {
            1int
        } else {
            0int
        })
    }
}

/// Every seed has an entry after initialization, and the table stays
/// distinct.
pub proof fn lemma_seeds_init_entries(seeds: Seq<(Seq<char>, i64)>, i: int)
    ensures
        distinct_score_ids(seeds_init(seeds, i).scores),
        forall|k: int|
            0 <= k < i ==> score_idx(seeds_init(seeds, i).scores, #[trigger] seeds[k].0) != -1,
    decreases i,
{
    if i > 0 {
        lemma_seeds_init_entries(seeds, i - 1);
        let prev = seeds_init(seeds, i - 1);
        lemma_add_score_distinct(prev.scores, seeds[i - 1].0, seeds[i - 1].1 as int);
    }
}

/// Propagation keeps the table distinct and never drops an entry.
pub proof fn lemma_prop_edges_entries(store: StoreV, st: ActV, u: Seq<char>, i: int)
    requires
        distinct_score_ids(st.scores),
    ensures
        distinct_score_ids(prop_edges(store, st, u, i).scores),
        forall|k: Seq<char>|
            score_idx(st.scores, k) != -1 ==> score_idx(
                prop_edges(store, st, u, i).scores,
                k,
            ) != -1,
    decreases i,
{
    if i > 0 {
        lemma_prop_edges_entries(store, st, u, i - 1);
        let prev = prop_edges(store, st, u, i - 1);
        let e = store.edges[i - 1];
        if e.src == u {
            lemma_add_score_distinct(
                prev.scores,
                e.dst,
                scaled_spec(score_of(prev.scores, u), e.weight as int),
            );
        }
    }
}

pub proof fn lemma_prop_frontier_entries(
    store: StoreV,
    frontier: Seq<Seq<char>>,
    st: ActV,
    j: int,
)
    requires
        distinct_score_ids(st.scores),
    ensures
        distinct_score_ids(prop_frontier(store, frontier, st, j).scores),
        forall|k: Seq<char>|
            score_idx(st.scores, k) != -1 ==> score_idx(
                prop_frontier(store, frontier, st, j).scores,
                k,
            ) != -1,
    decreases j,
{
    if j > 0 {
        lemma_prop_frontier_entries(store, frontier, st, j - 1);
        let prev = prop_frontier(store, frontier, st, j - 1);
        if lookup_node_seq(store.nodes, frontier[j - 1]) is None {
        } else {
            lemma_prop_edges_entries(store, prev, frontier[j - 1], store.edges.len() as int);
        }
    }
}

pub proof fn lemma_prop_hops_entries(store: StoreV, st: ActV, frontier: Seq<Seq<char>>, h: int)
    requires
        distinct_score_ids(st.scores),
    ensures
        distinct_score_ids(prop_hops(store, st, frontier, h).scores),
        forall|k: Seq<char>|
            score_idx(st.scores, k) != -1 ==> score_idx(
                prop_hops(store, st, frontier, h).scores,
                k,
            ) != -1,
    decreases h,
{
    if h > 0 && frontier.len() > 0 {
        let st0 = ActV { scores: st.scores, next: Seq::empty() };
        lemma_prop_frontier_entries(store, frontier, st0, frontier.len() as int);
        let st1 = prop_hop(store, st, frontier);
        lemma_prop_hops_entries(store, st1, st1.next, h - 1);
    }
}

/// A scored, stored id appears among the candidates.
pub proof fn lemma_candidates_member(
    store: StoreV,
    scores: Seq<(Seq<char>, i64)>,
    m: int,
    i: int,
)
    requires
        0 <= m < i <= scores.len(),
        lookup_node_seq(store.nodes, scores[m].0) is Some,
    ensures
        candidates_upto(store, scores, i).contains(scores[m]),
    decreases i,
{
    if m == i - 1 {
        let c = candidates_upto(store, scores, i);
        assert(c[c.len() - 1] == scores[m]);
    } else {
        lemma_candidates_member(store, scores, m, i - 1);
        let prev = candidates_upto(store, scores, i - 1);
        let jj = choose|jj: int| 0 <= jj < prev.len() && prev[jj] == scores[m];
        assert(candidates_upto(store, scores, i)[jj] == scores[m]);
    }
}

/// With the budget at least the seed entry count, the seed pass selects the
/// id of every seed entry.
pub proof fn lemma_sel_all_seeds(
    ranked: Seq<(Seq<char>, i64)>,
    seeds: Seq<(Seq<char>, i64)>,
    budget: int,
    i: int,
)
    requires
        0 <= i <= ranked.len(),
        seed_entry_count(ranked, seeds, i) <= budget,
    ensures
        sel_upto(ranked, seeds, true, budget, i).len() == seed_entry_count(ranked, seeds, i),
        forall|m: int|
            0 <= m < i && is_seed(seeds, #[trigger] ranked[m].0) ==> crate::traverse::seq_contains_str(
                sel_upto(ranked, seeds, true, budget, i),
                ranked[m].0,
            ),
    decreases i,
{
    if i > 0 {
        lemma_sel_all_seeds(ranked, seeds, budget, i - 1);
        let prev = sel_upto(ranked, seeds, true, budget, i - 1);
        let cur = sel_upto(ranked, seeds, true, budget, i);
        assert forall|m: int|
            0 <= m < i && is_seed(seeds, #[trigger] ranked[m].0) implies crate::traverse::seq_contains_str(
            cur,
            ranked[m].0,
        ) by {
            if m < i - 1 {
                let w = choose|w: int| 0 <= w < prev.len() && prev[w] == ranked[m].0;
                assert(cur[w] == ranked[m].0);
            } else {
                assert(cur[cur.len() - 1] == ranked[m].0);
            }
        }
    }
}

/// An entry whose id was selected is emitted.
pub proof fn lemma_emit_member(
    ranked: Seq<(Seq<char>, i64)>,
    sel1: Seq<Seq<char>>,
    sel2: Seq<Seq<char>>,
    m: int,
    i: int,
)
    requires
        0 <= m < i <= ranked.len(),
        crate::traverse::seq_contains_str(sel1, ranked[m].0) || crate::traverse::seq_contains_str(
            sel2,
            ranked[m].0,
        ),
    ensures
        emit_upto(ranked, sel1, sel2, i).contains(ranked[m]),
    decreases i,
{
    if m == i - 1 {
        let c = emit_upto(ranked, sel1, sel2, i);
        assert(c[c.len() - 1] == ranked[m]);
    } else {
        lemma_emit_member(ranked, sel1, sel2, m, i - 1);
        let prev = emit_upto(ranked, sel1, sel2, i - 1);
        let jj = choose|jj: int| 0 <= jj < prev.len() && prev[jj] == ranked[m];
        assert(emit_upto(ranked, sel1, sel2, i)[jj] == ranked[m]);
    }
}

/// An emitted entry with a stored node puts that node in the result.
pub proof fn lemma_nodes_of_scored_member(
    store: StoreV,
    scored: Seq<(Seq<char>, i64)>,
    m: int,
    i: int,
)
    requires
        0 <= m < i <= scored.len(),
        lookup_node_seq(store.nodes, scored[m].0) is Some,
    ensures
        nodes_of_scored(store, scored, i).contains(
            lookup_node_seq(store.nodes, scored[m].0)->Some_0,
        ),
    decreases i,
{
    if m == i - 1 {
        let c = nodes_of_scored(store, scored, i);
        assert(c[c.len() - 1] == lookup_node_seq(store.nodes, scored[m].0)->Some_0);
    } else {
        lemma_nodes_of_scored_member(store, scored, m, i - 1);
        let prev = nodes_of_scored(store, scored, i - 1);
        let y = lookup_node_seq(store.nodes, scored[m].0)->Some_0;
        let jj = choose|jj: int| 0 <= jj < prev.len() && prev[jj] == y;
        match lookup_node_seq(store.nodes, scored[i - 1].0) {
            Option::Some(_) => {
                assert(nodes_of_scored(store, scored, i)[jj] == y);
            },
            Option::None => {},
        }
    }
}

/// Law: the activation seed guarantee. A seed id that exists as a stored
/// node is in the result's node set, provided the bound admits the stored
/// seeds: `top_n` at least the number of ranked entries that are seeds.
pub proof fn lemma_seed_guarantee(
    store: StoreV,
    seeds: Seq<(Seq<char>, i64)>,
    policy: ActivationPolicy,
    id: Seq<char>,
)
    requires
        is_seed(seeds, id),
        lookup_node_seq(store.nodes, id) is Some,
        ({
            let hops = if policy.max_hops > MAX_ACTIVATION_HOPS {
                MAX_ACTIVATION_HOPS as int
            } else {
                policy.max_hops as int
            };
            let fin = activate_scores(store, seeds, hops);
            let ranked = sort_ranked(candidates_upto(store, fin.scores, fin.scores.len() as int));
            seed_entry_count(ranked, seeds, ranked.len() as int) <= policy.top_n
        }),
    ensures
        activate_spec(store, seeds, policy).nodes.contains(
            lookup_node_seq(store.nodes, id)->Some_0,
        ),
{
    let hops = if policy.max_hops > MAX_ACTIVATION_HOPS {
        MAX_ACTIVATION_HOPS as int
    } else {
        policy.max_hops as int
    };
    let st0 = seeds_init(seeds, seeds.len() as int);
    lemma_seeds_init_entries(seeds, seeds.len() as int);
    let k = choose|k: int| 0 <= k < seeds.len() && seeds[k].0 == id;
    assert(score_idx(st0.scores, id) != -1);
    lemma_prop_hops_entries(store, st0, st0.next, hops);
    let fin = activate_scores(store, seeds, hops);
    assert(score_idx(fin.scores, id) != -1);
    lemma_score_idx(fin.scores, id);
    let m = score_idx(fin.scores, id);
    let entry = fin.scores[m];
    assert(entry.0 == id);
    lemma_candidates_member(store, fin.scores, m, fin.scores.len() as int);
    let cands = candidates_upto(store, fin.scores, fin.scores.len() as int);
    lemma_sort_ranked_member(cands, entry);
    let ranked = sort_ranked(cands);
    assert(ranked.contains(entry));
    let rm = choose|rm: int| 0 <= rm < ranked.len() && ranked[rm] == entry;
    lemma_sel_all_seeds(ranked, seeds, policy.top_n as int, ranked.len() as int);
    let sel1 = sel_upto(ranked, seeds, true, policy.top_n as int, ranked.len() as int);
    assert(crate::traverse::seq_contains_str(sel1, ranked[rm].0));
    let sel2 = sel_upto(ranked, seeds, false, policy.top_n - sel1.len(), ranked.len() as int);
    lemma_emit_member(ranked, sel1, sel2, rm, ranked.len() as int);
    let emitted = emit_upto(ranked, sel1, sel2, ranked.len() as int);
    assert(emitted.contains(entry));
    let em = choose|em: int| 0 <= em < emitted.len() && emitted[em] == entry;
    lemma_nodes_of_scored_member(store, emitted, em, emitted.len() as int);
}

} // verus!
