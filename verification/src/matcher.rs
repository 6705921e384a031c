//! Subgraph matching: all injective assignments of nodes to the variables of
//! a connected edge pattern.

use crate::edge::Direction;
use crate::model::GraphModel;
use crate::topology::GraphIndex;
use std::collections::HashSet;
use vstd::prelude::*;
use vstd::set_lib::{lemma_int_range, lemma_len_subset, set_int_range};

verus! {

broadcast use vstd::std_specs::hash::group_hash_axioms;

/// One constraint of a pattern: between the nodes bound to `src_var` and
/// `tgt_var` runs an edge of type `type_id`, from the first to the second
/// where `direction` is `Outgoing`, from the second to the first where it is
/// `Incoming`.
#[derive(Debug, Clone, Copy)]
pub struct PatternEdge {
    pub src_var: usize,
    pub tgt_var: usize,
    pub type_id: u8,
    pub direction: Direction,
}

impl PatternEdge {
    /// The variable at which the wanted graph edge starts.
    pub open spec fn from_var(self) -> int {
        match self.direction {
            Direction::Outgoing => self.src_var as int,
            Direction::Incoming => self.tgt_var as int,
        }
    }

    /// The variable at which the wanted graph edge ends.
    pub open spec fn to_var(self) -> int {
        match self.direction {
            Direction::Outgoing => self.tgt_var as int,
            Direction::Incoming => self.src_var as int,
        }
    }

    /// The larger of the two variables: the one that is bound last.
    pub open spec fn high(self) -> int {
        if self.src_var >= self.tgt_var {
            self.src_var as int
        } else {
            self.tgt_var as int
        }
    }

    /// The larger of the two variables.
    pub fn high_var(&self) -> (r: usize)
        ensures
            r == self.high(),
    {
        if self.src_var >= self.tgt_var {
            self.src_var
        } else {
            self.tgt_var
        }
    }
}

/// The largest variable that the pattern names; 0 for the empty pattern.
pub open spec fn max_var(p: Seq<PatternEdge>) -> int
    decreases p.len(),
{
    if p.len() == 0 {
        0
    } else if max_var(p.drop_last()) >= p.last().high() {
        max_var(p.drop_last())
    } else {
        p.last().high()
    }
}

/// The number of variables of the pattern: they are `0..num_vars`.
pub open spec fn num_vars(p: Seq<PatternEdge>) -> int {
    max_var(p) + 1
}

/// Some edge ties variable `v` to a smaller one.
pub open spec fn tied(p: Seq<PatternEdge>, v: int) -> bool {
    exists|k: int|
        0 <= k < p.len() && (#[trigger] p[k]).high() == v && p[k].src_var != p[k].tgt_var
}

/// Every variable but 0 is tied by some edge to a smaller one.
pub open spec fn connected(p: Seq<PatternEdge>) -> bool {
    forall|v: int| 1 <= v <= max_var(p) ==> #[trigger] tied(p, v)
}

/// The patterns that are matched: no edge ties a variable to itself, the
/// pattern is connected, and its variables can be counted in `usize`. On any
/// other pattern the matcher finds nothing.
pub open spec fn pattern_ok(p: Seq<PatternEdge>) -> bool {
    &&& forall|k: int| 0 <= k < p.len() ==> (#[trigger] p[k]).src_var != p[k].tgt_var
    &&& connected(p)
    &&& max_var(p) < usize::MAX
}

/// No edge of the pattern names a variable above `max_var`.
pub proof fn lemma_max_var(p: Seq<PatternEdge>, k: int)
    requires
        0 <= k < p.len(),
    ensures
        0 <= p[k].high() <= max_var(p),
        0 <= p[k].src_var <= max_var(p),
        0 <= p[k].tgt_var <= max_var(p),
    decreases p.len(),
{
    if k < p.len() - 1 {
        lemma_max_var(p.drop_last(), k);
    }
}

/// `max_var` is 0 or the `high` of some edge.
pub proof fn lemma_max_var_attained(p: Seq<PatternEdge>)
    ensures
        max_var(p) == 0 || exists|k: int| 0 <= k < p.len() && (#[trigger] p[k]).high() == max_var(p),
        max_var(p) >= 0,
    decreases p.len(),
{
    if p.len() > 0 {
        lemma_max_var_attained(p.drop_last());
        if max_var(p.drop_last()) >= p.last().high() {
            if max_var(p) != 0 {
                let k = choose|k: int|
                    0 <= k < p.drop_last().len() && (#[trigger] p.drop_last()[k]).high() == max_var(
                        p.drop_last(),
                    );
                assert(p[k] == p.drop_last()[k]);
            }
        } else {
            assert(p[p.len() - 1].high() == max_var(p));
        }
    }
}

/// A connected pattern has at least as many edges as it has variables
/// beyond the first.
pub proof fn lemma_connected_bound(p: Seq<PatternEdge>)
    requires
        connected(p),
    ensures
        max_var(p) <= p.len(),
{
    lemma_max_var_attained(p);
    let highs = p.map_values(|e: PatternEdge| e.high());
    let range = set_int_range(1, max_var(p) + 1);
    highs.lemma_cardinality_of_set();
    lemma_int_range(1, max_var(p) + 1);
    assert forall|v: int| range.contains(v) implies highs.to_set().contains(v) by {
        assert(tied(p, v));
        let k = choose|k: int| 0 <= k < p.len() && (#[trigger] p[k]).high() == v;
        assert(highs[k] == v);
    }
    vstd::seq_lib::seq_to_set_is_finite(highs);
    lemma_len_subset(range, highs.to_set());
}

/// Whether the assignment `phi` satisfies the pattern edge `e`: the graph
/// holds an admitted edge of the edge's type between the two bound nodes, in
/// the edge's direction.
pub open spec fn edge_holds(m: GraphModel, e: PatternEdge, phi: Seq<u32>, as_of: Option<i64>) -> bool {
    m.linked(
        phi[e.from_var()] as int,
        phi[e.to_var()],
        Some(e.type_id),
        Direction::Outgoing,
        as_of,
    )
}

/// Whether `phi` binds the first `phi.len()` variables in a way that a match
/// may extend: it starts at a candidate, binds distinct live nodes, and
/// satisfies every pattern edge between variables bound so far.
pub open spec fn is_partial(
    m: GraphModel,
    p: Seq<PatternEdge>,
    starts: Seq<u32>,
    as_of: Option<i64>,
    phi: Seq<u32>,
) -> bool {
    &&& 1 <= phi.len() <= num_vars(p)
    &&& starts.contains(phi[0])
    &&& phi.no_duplicates()
    &&& forall|v: int| 0 <= v < phi.len() ==> m.live(#[trigger] phi[v] as int)
    &&& forall|k: int|
        0 <= k < p.len() && (#[trigger] p[k]).high() < phi.len() ==> edge_holds(m, p[k], phi, as_of)
}

/// Whether `phi` is a match: an injective assignment of live nodes to all
/// variables of the pattern that starts at a candidate and satisfies every
/// pattern edge.
pub open spec fn is_match(
    m: GraphModel,
    p: Seq<PatternEdge>,
    starts: Seq<u32>,
    as_of: Option<i64>,
    phi: Seq<u32>,
) -> bool {
    &&& phi.len() == num_vars(p)
    &&& starts.contains(phi[0])
    &&& phi.no_duplicates()
    &&& forall|v: int| 0 <= v < phi.len() ==> m.live(#[trigger] phi[v] as int)
    &&& forall|k: int| 0 <= k < p.len() ==> edge_holds(m, #[trigger] p[k], phi, as_of)
}

/// The rows of a result as sequences.
pub open spec fn rows(results: Seq<Vec<u32>>) -> Seq<Seq<u32>> {
    results.map_values(|r: Vec<u32>| r@)
}

/// The elements of `current` that `next` holds too, in the order of
/// `current`.
pub open spec fn common(current: Seq<u32>, next: Seq<u32>) -> Seq<u32> {
    current.filter(|id: u32| next.contains(id))
}

/// Whether `phi` is a match that begins with the bindings of `prefix`.
pub open spec fn extends_to(
    m: GraphModel,
    p: Seq<PatternEdge>,
    starts: Seq<u32>,
    as_of: Option<i64>,
    prefix: Seq<u32>,
    phi: Seq<u32>,
) -> bool {
    &&& is_match(m, p, starts, as_of, phi)
    &&& prefix.len() <= phi.len()
    &&& phi.take(prefix.len() as int) == prefix
}

/// Whether binding `c` to the next variable after `phi` satisfies those of
/// the first `upto` pattern edges that tie this variable to an earlier one.
pub open spec fn fits(
    m: GraphModel,
    p: Seq<PatternEdge>,
    phi: Seq<u32>,
    c: u32,
    as_of: Option<i64>,
    upto: int,
) -> bool {
    forall|k: int|
        0 <= k < upto && k < p.len() && (#[trigger] p[k]).high() == phi.len() ==> edge_holds(
            m,
            p[k],
            phi.push(c),
            as_of,
        )
}

/// `common` keeps what both sequences hold, and repeats nothing that
/// `current` did not repeat.
pub proof fn lemma_common(current: Seq<u32>, next: Seq<u32>)
    ensures
        forall|c: u32| common(current, next).contains(c) <==> current.contains(c) && next.contains(c),
        current.no_duplicates() ==> common(current, next).no_duplicates(),
    decreases current.len(),
{
    reveal(Seq::filter);
    let keep = |id: u32| next.contains(id);
    if current.len() > 0 {
        let init = current.drop_last();
        let last = current.last();
        lemma_common(init, next);
        let sub = common(init, next);
        let all = common(current, next);
        assert forall|c: u32| all.contains(c) <==> current.contains(c) && next.contains(c) by {
            if all.contains(c) {
                let i = choose|i: int| 0 <= i < all.len() && all[i] == c;
                if i < sub.len() {
                    assert(sub[i] == c);
                    assert(sub.contains(c));
                    let j = choose|j: int| 0 <= j < init.len() && init[j] == c;
                    assert(current[j] == c);
                } else {
                    assert(current[current.len() - 1] == c);
                }
            }
            if current.contains(c) && next.contains(c) {
                let j = choose|j: int| 0 <= j < current.len() && current[j] == c;
                if j < init.len() {
                    assert(init[j] == c);
                    assert(sub.contains(c));
                    let i = choose|i: int| 0 <= i < sub.len() && sub[i] == c;
                    assert(all[i] == c);
                } else {
                    assert(all[sub.len() as int] == c);
                }
            }
        }
        if current.no_duplicates() {
            assert(init.no_duplicates());
            if keep(last) {
                if sub.contains(last) {
                    let j = choose|j: int| 0 <= j < init.len() && init[j] == last;
                    assert(current[j] == current[current.len() - 1]);
                }
            }
        }
    }
}

/// What the neighbours of the bound end of a pattern edge say of the free
/// end: `c` is among them exactly if binding `c` satisfies the edge.
pub proof fn lemma_candidates(
    m: GraphModel,
    e: PatternEdge,
    phi: Seq<u32>,
    c: u32,
    as_of: Option<i64>,
)
    requires
        m.wf(),
        e.high() == phi.len(),
        e.src_var != e.tgt_var,
    ensures
        e.src_var < phi.len() ==> (m.neighbors(
            phi[e.src_var as int] as int,
            Some(e.type_id),
            e.direction,
            as_of,
        ).contains(c) <==> edge_holds(m, e, phi.push(c), as_of)),
        e.tgt_var < phi.len() ==> (m.neighbors(
            phi[e.tgt_var as int] as int,
            Some(e.type_id),
            e.direction.spec_flip(),
            as_of,
        ).contains(c) <==> edge_holds(m, e, phi.push(c), as_of)),
{
    let ext = phi.push(c);
    if e.src_var < phi.len() {
        let known = phi[e.src_var as int];
        assert(ext[e.src_var as int] == known);
        assert(ext[e.tgt_var as int] == c);
        m.lemma_neighbors(known as int, Some(e.type_id), e.direction, as_of);
        m.lemma_linked_flip(known, c, Some(e.type_id), e.direction, as_of);
    } else {
        let known = phi[e.tgt_var as int];
        assert(ext[e.tgt_var as int] == known);
        assert(ext[e.src_var as int] == c);
        m.lemma_neighbors(known as int, Some(e.type_id), e.direction.spec_flip(), as_of);
        m.lemma_linked_flip(known, c, Some(e.type_id), e.direction.spec_flip(), as_of);
    }
}

/// A pattern edge between variables that two assignments bind alike holds
/// in both or in neither.
pub proof fn lemma_edge_holds_agree(
    m: GraphModel,
    e: PatternEdge,
    a: Seq<u32>,
    b: Seq<u32>,
    as_of: Option<i64>,
)
    requires
        e.high() < a.len(),
        a.len() <= b.len(),
        b.take(a.len() as int) == a,
    ensures
        edge_holds(m, e, a, as_of) == edge_holds(m, e, b, as_of),
{
    assert(b.take(a.len() as int)[e.from_var()] == b[e.from_var()]);
    assert(b.take(a.len() as int)[e.to_var()] == b[e.to_var()]);
}

/// A partial assignment stays one when the next variable is bound to a
/// fresh live node that satisfies the edges back to the bound variables.
pub proof fn lemma_extend_partial(
    m: GraphModel,
    p: Seq<PatternEdge>,
    starts: Seq<u32>,
    as_of: Option<i64>,
    phi: Seq<u32>,
    c: u32,
)
    requires
        is_partial(m, p, starts, as_of, phi),
        phi.len() < num_vars(p),
        m.live(c as int),
        !phi.contains(c),
        fits(m, p, phi, c, as_of, p.len() as int),
    ensures
        is_partial(m, p, starts, as_of, phi.push(c)),
{
    let ext = phi.push(c);
    assert(ext.take(phi.len() as int) =~= phi);
    assert forall|i: int, j: int| 0 <= i < ext.len() && 0 <= j < ext.len() && i != j implies ext[i]
        != ext[j] by {
        if i < phi.len() {
            assert(phi.contains(phi[i]));
        }
        if j < phi.len() {
            assert(phi.contains(phi[j]));
        }
    }
    assert forall|v: int| 0 <= v < ext.len() implies m.live(#[trigger] ext[v] as int) by {
        if v < phi.len() {
            assert(m.live(phi[v] as int));
        }
    }
    assert forall|k: int| 0 <= k < p.len() && (#[trigger] p[k]).high() < ext.len() implies edge_holds(
        m,
        p[k],
        ext,
        as_of,
    ) by {
        if p[k].high() < phi.len() {
            lemma_edge_holds_agree(m, p[k], phi, ext, as_of);
        }
    }
}

/// A match, cut after its first `n` variables, is a partial assignment, and
/// the node that it binds next is fresh, live and fits.
pub proof fn lemma_match_prefix(
    m: GraphModel,
    p: Seq<PatternEdge>,
    starts: Seq<u32>,
    as_of: Option<i64>,
    phi: Seq<u32>,
    n: int,
)
    requires
        is_match(m, p, starts, as_of, phi),
        1 <= n < num_vars(p),
    ensures
        phi.take(n + 1) == phi.take(n).push(phi[n]),
        !phi.take(n).contains(phi[n]),
        m.live(phi[n] as int),
        fits(m, p, phi.take(n), phi[n], as_of, p.len() as int),
{
    let pre = phi.take(n);
    let ext = phi.take(n + 1);
    assert(ext =~= pre.push(phi[n]));
    if pre.contains(phi[n]) {
        let i = choose|i: int| 0 <= i < pre.len() && pre[i] == phi[n];
        assert(phi[i] == phi[n]);
    }
    assert forall|k: int|
        0 <= k < p.len() && (#[trigger] p[k]).high() == pre.len() implies edge_holds(
        m,
        p[k],
        pre.push(phi[n]),
        as_of,
    ) by {
        assert(phi.take(ext.len() as int) == ext);
        lemma_edge_holds_agree(m, p[k], ext, phi, as_of);
    }
}

/// The neighbours that the pattern edge `e` allows for the variable after
/// `phi`, where `e` ties that variable to an earlier one.
pub open spec fn edge_neighbors(m: GraphModel, e: PatternEdge, phi: Seq<u32>, as_of: Option<i64>) -> Seq<
    u32,
> {
    if e.src_var < phi.len() {
        m.neighbors(phi[e.src_var as int] as int, Some(e.type_id), e.direction, as_of)
    } else {
        m.neighbors(phi[e.tgt_var as int] as int, Some(e.type_id), e.direction.spec_flip(), as_of)
    }
}

/// The candidates for the variable after `phi`, as the first `upto` pattern
/// edges narrow them down: the neighbours that the first edge allows, less
/// those that a later edge does not allow. `None` where none of these edges
/// ties the variable to an earlier one.
pub open spec fn candidates(
    m: GraphModel,
    p: Seq<PatternEdge>,
    phi: Seq<u32>,
    as_of: Option<i64>,
    upto: nat,
) -> Option<Seq<u32>>
    decreases upto,
{
    if upto == 0 {
        None
    } else {
        let prior = candidates(m, p, phi, as_of, (upto - 1) as nat);
        let e = p[upto - 1];
        if e.high() != phi.len() {
            prior
        } else {
            match prior {
                None => Some(edge_neighbors(m, e, phi, as_of)),
                Some(c) => Some(common(c, edge_neighbors(m, e, phi, as_of))),
            }
        }
    }
}

/// The matches that begin with `phi`, in the order in which the search
/// finds them: `phi` itself where it binds every variable, else the matches
/// through each candidate for the next variable in turn.
pub open spec fn search(m: GraphModel, p: Seq<PatternEdge>, phi: Seq<u32>, as_of: Option<i64>) -> Seq<
    Seq<u32>,
>
    decreases num_vars(p) - phi.len(), 1nat, 0nat,
{
    if phi.len() >= num_vars(p) {
        seq![phi]
    } else {
        match candidates(m, p, phi, as_of, p.len()) {
            None => Seq::empty(),
            Some(c) => search_through(m, p, phi, as_of, c, c.len()),
        }
    }
}

/// The matches that begin with `phi` and bind the next variable to one of
/// the first `j` of `cands`, candidate by candidate. A candidate that `phi`
/// has bound already is passed over.
pub open spec fn search_through(
    m: GraphModel,
    p: Seq<PatternEdge>,
    phi: Seq<u32>,
    as_of: Option<i64>,
    cands: Seq<u32>,
    j: nat,
) -> Seq<Seq<u32>>
    decreases num_vars(p) - phi.len(), 0nat, j,
{
    if j == 0 || phi.len() >= num_vars(p) {
        Seq::empty()
    } else {
        let before = search_through(m, p, phi, as_of, cands, (j - 1) as nat);
        if phi.contains(cands[j - 1]) {
            before
        } else {
            before + search(m, p, phi.push(cands[j - 1]), as_of)
        }
    }
}

/// The matches that begin at one of the first `i` start candidates, start
/// by start. A start that is not live, or that came before, is passed over.
pub open spec fn search_from(
    m: GraphModel,
    p: Seq<PatternEdge>,
    starts: Seq<u32>,
    as_of: Option<i64>,
    i: nat,
) -> Seq<Seq<u32>>
    decreases i,
{
    if i == 0 {
        Seq::empty()
    } else {
        let before = search_from(m, p, starts, as_of, (i - 1) as nat);
        let s = starts[i - 1];
        if m.live(s as int) && !starts.take(i - 1).contains(s) {
            before + search(m, p, seq![s], as_of)
        } else {
            before
        }
    }
}

/// What `find_matches` returns, in order: nothing for a pattern that is not
/// matched, else the matches from each start candidate in turn.
pub open spec fn all_matches(
    m: GraphModel,
    p: Seq<PatternEdge>,
    starts: Seq<u32>,
    as_of: Option<i64>,
) -> Seq<Seq<u32>> {
    if pattern_ok(p) {
        search_from(m, p, starts, as_of, starts.len())
    } else {
        Seq::empty()
    }
}

/// Candidates that have run out stay out, whatever further edges say.
pub proof fn lemma_candidates_stay_empty(
    m: GraphModel,
    p: Seq<PatternEdge>,
    phi: Seq<u32>,
    as_of: Option<i64>,
    k: nat,
    upto: nat,
)
    requires
        candidates(m, p, phi, as_of, k) == Some(Seq::<u32>::empty()),
        k <= upto,
    ensures
        candidates(m, p, phi, as_of, upto) == Some(Seq::<u32>::empty()),
    decreases upto - k,
{
    if k < upto {
        let c: nat = (upto - 1) as nat;
        lemma_candidates_stay_empty(m, p, phi, as_of, k, c);
        let e = p[upto - 1];
        if e.high() == phi.len() {
            reveal(Seq::filter);
            assert(common(Seq::<u32>::empty(), edge_neighbors(m, e, phi, as_of)) =~= Seq::<u32>::empty());
        }
    }
}

/// Whether the results grew from `before` to `after` by exactly the matches
/// that begin with `prefix`, each once.
pub open spec fn found(
    before: Seq<Seq<u32>>,
    after: Seq<Seq<u32>>,
    m: GraphModel,
    p: Seq<PatternEdge>,
    starts: Seq<u32>,
    as_of: Option<i64>,
    prefix: Seq<u32>,
) -> bool {
    &&& before.len() <= after.len()
    &&& after.take(before.len() as int) == before
    &&& after.skip(before.len() as int).no_duplicates()
    &&& forall|phi: Seq<u32>|
        #![trigger after.skip(before.len() as int).contains(phi)]
        #![trigger extends_to(m, p, starts, as_of, prefix, phi)]
        after.skip(before.len() as int).contains(phi) <==> extends_to(
            m,
            p,
            starts,
            as_of,
            prefix,
            phi,
        )
}

/// A backtracking solver for subgraph isomorphism over one graph and one
/// pattern.
///
/// Variable 0 is the start variable, seeded by the start candidates; the
/// other variables are bound in index order, each from the neighbours of the
/// variables bound before it.
pub struct Matcher<'a> {
    graph: &'a GraphIndex,
    pattern: &'a [PatternEdge],
    num_vars: usize,
    valid: bool,
}

impl<'a> Matcher<'a> {
    /// The graph that is searched.
    pub closed spec fn graph(&self) -> GraphIndex {
        *self.graph
    }

    /// The pattern that is matched.
    pub closed spec fn pattern(&self) -> Seq<PatternEdge> {
        self.pattern@
    }

    /// The matcher knows whether its pattern is matched at all, and if so
    /// how many variables it has.
    pub closed spec fn wf(&self) -> bool {
        &&& self.graph.wf()
        &&& self.valid == pattern_ok(self.pattern@)
        &&& self.valid ==> self.num_vars == num_vars(self.pattern@)
    }

    /// A matcher of `pattern` over `graph`. The pattern is examined once,
    /// here: whether it is matched at all, and how many variables it has.
    pub fn new(graph: &'a GraphIndex, pattern: &'a [PatternEdge]) -> (r: Self)
        requires
            graph.wf(),
        ensures
            r.wf(),
            r.graph() == *graph,
            r.pattern() == pattern@,
    {
        let ghost p = pattern@;
        let mut top: usize = 0;
        let mut loop_free = true;
        let mut i: usize = 0;
        while i < pattern.len()
            invariant
                i <= pattern.len(),
                p == pattern@,
                top == max_var(p.take(i as int)),
                loop_free == (forall|k: int|
                    0 <= k < i ==> (#[trigger] p[k]).src_var != p[k].tgt_var),
            decreases pattern.len() - i,
        {
            let e = &pattern[i];
            proof {
                assert(p.take(i + 1).drop_last() =~= p.take(i as int));
                assert(p.take(i + 1).last() == p[i as int]);
            }
            let h = e.high_var();
            if h > top {
                top = h;
            }
            if e.src_var == e.tgt_var {
                loop_free = false;
            }
            i += 1;
        }
        proof {
            assert(p.take(pattern.len() as int) =~= p);
        }
        if !loop_free || top > pattern.len() || top == usize::MAX {
            proof {
                if connected(p) {
                    lemma_connected_bound(p);
                }
            }
            return Matcher { graph, pattern, num_vars: 1, valid: false };
        }
        let mut covered: Vec<bool> = vec![false; top + 1];
        let mut j: usize = 0;
        while j < pattern.len()
            invariant
                j <= pattern.len(),
                p == pattern@,
                top == max_var(p),
                covered@.len() == top + 1,
                forall|v: int|
                    0 <= v <= top ==> (#[trigger] covered@[v] <==> exists|k: int|
                        0 <= k < j && (#[trigger] p[k]).high() == v),
            decreases pattern.len() - j,
        {
            let h = pattern[j].high_var();
            proof {
                lemma_max_var(p, j as int);
            }
            let ghost before = covered@;
            covered.set(h, true);
            proof {
                assert forall|v: int| 0 <= v <= top implies (#[trigger] covered@[v] <==> exists|k: int|
                    0 <= k < j + 1 && (#[trigger] p[k]).high() == v) by {
                    if covered@[v] {
                        if v == h {
                            assert(p[j as int].high() == v);
                        } else {
                            assert(before[v]);
                            let k = choose|k: int| 0 <= k < j && (#[trigger] p[k]).high() == v;
                            assert(p[k].high() == v);
                        }
                    } else {
                        assert(!before[v]);
                    }
                }
            }
            j += 1;
        }
        let mut all = true;
        let mut v: usize = 1;
        while v <= top
            invariant
                1 <= v <= top + 1,
                top < usize::MAX,
                covered@.len() == top + 1,
                all == (forall|w: int| 1 <= w < v ==> #[trigger] covered@[w]),
            decreases top + 1 - v,
        {
            if !covered[v] {
                all = false;
            }
            v += 1;
        }
        proof {
            if all {
                assert forall|w: int| 1 <= w <= max_var(p) implies #[trigger] tied(p, w) by {
                    assert(covered@[w]);
                    let k = choose|k: int| 0 <= k < p.len() && (#[trigger] p[k]).high() == w;
                    assert(p[k].src_var != p[k].tgt_var);
                }
            } else {
                let w = choose|w: int| 1 <= w < v && !covered@[w];
                assert(!covered@[w]);
                if connected(p) {
                    assert(tied(p, w));
                    let k = choose|k: int| 0 <= k < p.len() && (#[trigger] p[k]).high() == w;
                    assert(p[k].high() == w);
                }
            }
        }
        Matcher { graph, pattern, num_vars: top + 1, valid: all }
    }

    /// All matches of the pattern whose variable 0 is bound to one of
    /// `start_candidates`, each once. Every pattern edge is looked up under
    /// the temporal filter of `as_of`. A pattern that is not matched (see
    /// `pattern_ok`) has no matches.
    pub fn find_matches(&self, start_candidates: &[u32], as_of: Option<i64>) -> (results: Vec<
        Vec<u32>,
    >)
        requires
            self.wf(),
        ensures
            rows(results@) == all_matches(self.graph()@, self.pattern(), start_candidates@, as_of),
            !pattern_ok(self.pattern()) ==> results@.len() == 0,
            rows(results@).no_duplicates(),
            pattern_ok(self.pattern()) ==> forall|phi: Seq<u32>| #[trigger]
                rows(results@).contains(phi) <==> is_match(
                    self.graph()@,
                    self.pattern(),
                    start_candidates@,
                    as_of,
                    phi,
                ),
    {
        let mut results: Vec<Vec<u32>> = Vec::new();
        if !self.valid {
            assert(rows(results@) =~= Seq::<Seq<u32>>::empty());
            return results;
        }
        let ghost m = self.graph@;
        let ghost p = self.pattern@;
        let ghost starts = start_candidates@;
        let mut assignment: Vec<u32> = Vec::new();
        let mut used_nodes: HashSet<u32> = HashSet::new();
        let mut tried: HashSet<u32> = HashSet::new();
        let mut i: usize = 0;
        proof {
            lemma_max_var_attained(p);
            assert(rows(results@) =~= Seq::<Seq<u32>>::empty());
        }
        while i < start_candidates.len()
            invariant
                i <= start_candidates.len(),
                self.wf(),
                pattern_ok(self.pattern()),
                m == self.graph()@,
                p == self.pattern(),
                starts == start_candidates@,
                assignment@.len() == 0,
                used_nodes@ == Set::<u32>::empty(),
                forall|v: u32| tried@.contains(v) <==> starts.take(i as int).contains(v),
                rows(results@) == search_from(m, p, starts, as_of, i as nat),
                rows(results@).no_duplicates(),
                forall|phi: Seq<u32>| #[trigger]
                    rows(results@).contains(phi) <==> is_match(m, p, starts, as_of, phi)
                        && starts.take(i as int).contains(phi[0]),
            decreases start_candidates.len() - i,
        {
            let start_node = start_candidates[i];
            let ghost seen = starts.take(i as int);
            let ghost now = starts.take(i + 1);
            let ghost before = rows(results@);
            proof {
                assert(now =~= seen.push(start_node));
                assert forall|v: u32| now.contains(v) <==> seen.contains(v) || v == start_node by {
                    if seen.contains(v) {
                        let k = choose|k: int| 0 <= k < seen.len() && seen[k] == v;
                        assert(now[k] == v);
                    }
                    if v == start_node {
                        assert(now[i as int] == v);
                    }
                }
            }
            if !tried.contains(&start_node) && !self.graph.is_node_deleted(start_node) {
                assignment.push(start_node);
                used_nodes.insert(start_node);
                proof {
                    let phi = assignment@;
                    assert(phi =~= seq![start_node]);
                    assert(starts[i as int] == start_node);
                    assert(starts.contains(phi[0]));
                    assert forall|k: int| 0 <= k < p.len() && (#[trigger] p[k]).high()
                        < phi.len() implies edge_holds(m, p[k], phi, as_of) by {
                        assert(p[k].src_var != p[k].tgt_var);
                    }
                    assert(is_partial(m, p, starts, as_of, phi));
                    assert forall|v: u32| used_nodes@.contains(v) <==> phi.contains(v) by {
                        if v == start_node {
                            assert(phi[0] == v);
                        }
                    }
                }
                self.backtrack(1, &mut assignment, &mut used_nodes, &mut results, as_of, Ghost(starts));
                used_nodes.remove(&start_node);
                assignment.pop();
                proof {
                    let after = rows(results@);
                    let ext = after.skip(before.len() as int);
                    let prefix = seq![start_node];
                    assert(assignment@ =~= Seq::<u32>::empty());
                    assert(used_nodes@ =~= Set::<u32>::empty());
                    assert(after =~= before + ext);
                    assert(i + 1 - 1 == i);
                    assert(after == search_from(m, p, starts, as_of, (i + 1) as nat));
                    assert forall|phi: Seq<u32>| #[trigger]
                        after.contains(phi) <==> is_match(m, p, starts, as_of, phi) && now.contains(
                            phi[0],
                        ) by {
                        if after.contains(phi) {
                            let k = choose|k: int| 0 <= k < after.len() && after[k] == phi;
                            if k < before.len() {
                                assert(before[k] == phi);
                                assert(before.contains(phi));
                            } else {
                                assert(ext[k - before.len()] == phi);
                                assert(ext.contains(phi));
                                assert(extends_to(m, p, starts, as_of, prefix, phi));
                                assert(phi.take(1)[0] == phi[0]);
                            }
                        }
                        if is_match(m, p, starts, as_of, phi) && now.contains(phi[0]) {
                            if seen.contains(phi[0]) {
                                assert(before.contains(phi));
                                let k = choose|k: int| 0 <= k < before.len() && before[k] == phi;
                                assert(after[k] == phi);
                            } else {
                                assert(phi.take(1) =~= prefix);
                                assert(extends_to(m, p, starts, as_of, prefix, phi));
                                assert(ext.contains(phi));
                                let k = choose|k: int| 0 <= k < ext.len() && ext[k] == phi;
                                assert(after[before.len() + k] == phi);
                            }
                        }
                    }
                    assert forall|a: int, b: int|
                        0 <= a < after.len() && 0 <= b < after.len() && a != b implies after[a]
                        != after[b] by {
                        if a < before.len() && b >= before.len() {
                            assert(before.contains(after[a]));
                            assert(ext[b - before.len()] == after[b]);
                            assert(ext.contains(after[b]));
                            assert(extends_to(m, p, starts, as_of, prefix, after[b]));
                            assert(after[b].take(1)[0] == after[b][0]);
                        } else if b < before.len() && a >= before.len() {
                            assert(before.contains(after[b]));
                            assert(ext[a - before.len()] == after[a]);
                            assert(ext.contains(after[a]));
                            assert(extends_to(m, p, starts, as_of, prefix, after[a]));
                            assert(after[a].take(1)[0] == after[a][0]);
                        } else if a >= before.len() {
                            assert(ext[a - before.len()] == after[a]);
                            assert(ext[b - before.len()] == after[b]);
                        }
                    }
                }
            } else {
                proof {
                    assert(i + 1 - 1 == i);
                    assert(before == search_from(m, p, starts, as_of, (i + 1) as nat));
                    assert forall|phi: Seq<u32>| #[trigger]
                        before.contains(phi) <==> is_match(m, p, starts, as_of, phi)
                            && now.contains(phi[0]) by {
                        if is_match(m, p, starts, as_of, phi) && phi[0] == start_node
                            && !seen.contains(phi[0]) {
                            assert(m.live(phi[0] as int));
                        }
                    }
                }
            }
            tried.insert(start_node);
            i += 1;
        }
        proof {
            assert(starts.take(start_candidates.len() as int) =~= starts);
        }
        results
    }

    /// Binds the variables from `current_var` on in every way that extends
    /// `assignment` to a match, and appends each match to `results`.
    fn backtrack(
        &self,
        current_var: usize,
        assignment: &mut Vec<u32>,
        used_nodes: &mut HashSet<u32>,
        results: &mut Vec<Vec<u32>>,
        as_of: Option<i64>,
        Ghost(starts): Ghost<Seq<u32>>,
    )
        requires
            self.wf(),
            pattern_ok(self.pattern()),
            old(assignment)@.len() == current_var,
            is_partial(self.graph()@, self.pattern(), starts, as_of, old(assignment)@),
            forall|v: u32| old(used_nodes)@.contains(v) <==> old(assignment)@.contains(v),
        ensures
            final(assignment)@ == old(assignment)@,
            final(used_nodes)@ == old(used_nodes)@,
            rows(final(results)@) == rows(old(results)@) + search(
                self.graph()@,
                self.pattern(),
                old(assignment)@,
                as_of,
            ),
            found(
                rows(old(results)@),
                rows(final(results)@),
                self.graph()@,
                self.pattern(),
                starts,
                as_of,
                old(assignment)@,
            ),
        decreases num_vars(self.pattern()) - current_var,
    {
        let ghost m = self.graph@;
        let ghost p = self.pattern@;
        let ghost phi = assignment@;
        let ghost before = rows(results@);
        let ghost used = used_nodes@;
        if current_var == self.num_vars {
            results.push(assignment.clone());
            proof {
                let after = rows(results@);
                let ext = after.skip(before.len() as int);
                assert(after =~= before.push(phi));
                assert(after.take(before.len() as int) =~= before);
                assert(ext =~= seq![phi]);
                assert(after =~= before + search(m, p, phi, as_of));
                assert forall|a: int| 0 <= a < p.len() implies edge_holds(
                    m,
                    #[trigger] p[a],
                    phi,
                    as_of,
                ) by {
                    lemma_max_var(p, a);
                }
                assert(is_match(m, p, starts, as_of, phi));
                assert forall|psi: Seq<u32>|
                    #![trigger ext.contains(psi)]
                    #![trigger extends_to(m, p, starts, as_of, phi, psi)]
                    ext.contains(psi) <==> extends_to(m, p, starts, as_of, phi, psi) by {
                    if extends_to(m, p, starts, as_of, phi, psi) {
                        assert(psi.take(phi.len() as int) =~= psi);
                        assert(ext[0] == psi);
                    }
                    if ext.contains(psi) {
                        assert(psi == phi);
                        assert(phi.take(phi.len() as int) =~= phi);
                    }
                }
            }
            return ;
        }
        let mut candidates: Option<Vec<u32>> = None;
        let mut k: usize = 0;
        while k < self.pattern.len()
            invariant
                k <= self.pattern.len(),
                self.wf(),
                pattern_ok(self.pattern()),
                m == self.graph()@,
                p == self.pattern(),
                phi == assignment@,
                phi.len() == current_var,
                current_var < self.num_vars,
                is_partial(m, p, starts, as_of, phi),
                before == rows(results@),
                before == rows(old(results)@),
                phi == old(assignment)@,
                used == used_nodes@,
                used == old(used_nodes)@,
                match candidates {
                    None => self::candidates(m, p, phi, as_of, k as nat) is None,
                    Some(cs) => self::candidates(m, p, phi, as_of, k as nat) == Some(cs@),
                },
                match candidates {
                    None => forall|j: int| 0 <= j < k ==> (#[trigger] p[j]).high() != current_var,
                    Some(cs) => {
                        &&& cs@.no_duplicates()
                        &&& cs@.len() > 0
                        &&& forall|c: u32| #[trigger]
                            cs@.contains(c) <==> fits(m, p, phi, c, as_of, k as int)
                    },
                },
            decreases self.pattern.len() - k,
        {
            let edge = &self.pattern[k];
            if edge.high_var() == current_var {
                let (known_var, dir) = if edge.src_var < current_var {
                    (edge.src_var, edge.direction)
                } else {
                    (edge.tgt_var, edge.direction.flip())
                };
                let known_node = assignment[known_var];
                let neighbors = self.graph.get_neighbors(known_node, edge.type_id, dir, as_of);
                let ghost nb = neighbors@;
                let ghost prior = candidates;
                proof {
                    self.graph.lemma_wf();
                    m.lemma_neighbors(known_node as int, Some(edge.type_id), dir, as_of);
                    assert forall|c: u32| nb.contains(c) <==> edge_holds(
                        m,
                        p[k as int],
                        phi.push(c),
                        as_of,
                    ) by {
                        lemma_candidates(m, p[k as int], phi, c, as_of);
                    }
                }
                candidates = self.intersect(candidates, neighbors);
                proof {
                    assert(k + 1 - 1 == k);
                    assert(nb == edge_neighbors(m, p[k as int], phi, as_of));
                    assert(self::candidates(m, p, phi, as_of, (k + 1) as nat) == Some(
                        candidates.unwrap()@,
                    ));
                    let cs = candidates.unwrap()@;
                    match prior {
                        None => {
                            assert(cs == nb);
                        },
                        Some(curr) => {
                            lemma_common(curr@, nb);
                        },
                    }
                    assert forall|c: u32| #[trigger]
                        cs.contains(c) <==> fits(m, p, phi, c, as_of, k + 1) by {
                        if prior is Some {
                            assert(prior.unwrap()@.contains(c) <==> fits(m, p, phi, c, as_of, k as int));
                        }
                        if fits(m, p, phi, c, as_of, k + 1) {
                            assert(edge_holds(m, p[k as int], phi.push(c), as_of));
                            assert(fits(m, p, phi, c, as_of, k as int));
                        }
                    }
                }
                let none_left = match &candidates {
                    Some(cs) => cs.len() == 0,
                    None => false,
                };
                if none_left {
                    proof {
                        assert(candidates.unwrap()@ =~= Seq::<u32>::empty());
                        lemma_candidates_stay_empty(m, p, phi, as_of, (k + 1) as nat, p.len());
                        assert(search(m, p, phi, as_of) =~= Seq::<Seq<u32>>::empty());
                        assert(before + search(m, p, phi, as_of) =~= before);
                        let cs = candidates.unwrap()@;
                        assert(before.skip(before.len() as int) =~= Seq::<Seq<u32>>::empty());
                        assert(before.take(before.len() as int) =~= before);
                        assert forall|psi: Seq<u32>| !extends_to(m, p, starts, as_of, phi, psi) by {
                            if extends_to(m, p, starts, as_of, phi, psi) {
                                lemma_match_prefix(m, p, starts, as_of, psi, current_var as int);
                                let c = psi[current_var as int];
                                assert(fits(m, p, phi, c, as_of, k + 1));
                                assert(cs.contains(c));
                            }
                        }
                    }
                    return ;
                }
            } else {
                proof {
                    assert(k + 1 - 1 == k);
                }
            }
            k += 1;
        }
        match candidates {
            None => {
                proof {
                    assert(tied(p, current_var as int));
                    let j = choose|j: int| 0 <= j < p.len() && (#[trigger] p[j]).high() == current_var;
                    assert(p[j].high() == current_var);
                    assert(false);
                }
            },
            Some(cands) => {
                let mut j: usize = 0;
                proof {
                    assert(before.take(before.len() as int) =~= before);
                    assert(before.skip(before.len() as int) =~= Seq::<Seq<u32>>::empty());
                    assert(before + search_through(m, p, phi, as_of, cands@, 0) =~= before);
                }
                while j < cands.len()
                    invariant
                        j <= cands.len(),
                        self.wf(),
                        pattern_ok(self.pattern()),
                        m == self.graph()@,
                        p == self.pattern(),
                        phi == assignment@,
                        phi.len() == current_var,
                        current_var < self.num_vars,
                        is_partial(m, p, starts, as_of, phi),
                        used == used_nodes@,
                        before == rows(old(results)@),
                        phi == old(assignment)@,
                        used == old(used_nodes)@,
                        forall|v: u32| used.contains(v) <==> phi.contains(v),
                        cands@.no_duplicates(),
                        self::candidates(m, p, phi, as_of, p.len()) == Some(cands@),
                        rows(results@) == before + search_through(m, p, phi, as_of, cands@, j as nat),
                        forall|c: u32| #[trigger]
                            cands@.contains(c) <==> fits(m, p, phi, c, as_of, p.len() as int),
                        before.len() <= rows(results@).len(),
                        rows(results@).take(before.len() as int) == before,
                        rows(results@).skip(before.len() as int).no_duplicates(),
                        forall|psi: Seq<u32>| #[trigger]
                            rows(results@).skip(before.len() as int).contains(psi) <==> extends_to(
                                m,
                                p,
                                starts,
                                as_of,
                                phi,
                                psi,
                            ) && cands@.take(j as int).contains(psi[current_var as int]),
                    decreases cands.len() - j,
                {
                    let cand = cands[j];
                    let ghost mid = rows(results@);
                    let ghost done = cands@.take(j as int);
                    let ghost next = cands@.take(j + 1);
                    proof {
                        assert(next =~= done.push(cand));
                        assert(cands@.contains(cand));
                        assert forall|v: u32| next.contains(v) <==> done.contains(v) || v == cand by {
                            if done.contains(v) {
                                let a = choose|a: int| 0 <= a < done.len() && done[a] == v;
                                assert(next[a] == v);
                            }
                            if v == cand {
                                assert(next[j as int] == v);
                            }
                        }
                        if done.contains(cand) {
                            let a = choose|a: int| 0 <= a < done.len() && done[a] == cand;
                            assert(cands@[a] == cands@[j as int]);
                        }
                    }
                    if !used_nodes.contains(&cand) {
                        proof {
                            assert forall|a: int|
                                0 <= a < p.len() && (#[trigger] p[a]).high()
                                    == phi.len() implies m.live(cand as int) by {
                                assert(edge_holds(m, p[a], phi.push(cand), as_of));
                                assert(phi.push(cand)[p[a].from_var()] == cand || phi.push(
                                    cand,
                                )[p[a].to_var()] == cand);
                            }
                            assert(tied(p, current_var as int));
                            lemma_extend_partial(m, p, starts, as_of, phi, cand);
                        }
                        assignment.push(cand);
                        used_nodes.insert(cand);
                        proof {
                            let ext = phi.push(cand);
                            assert forall|v: u32| used_nodes@.contains(v) <==> ext.contains(v) by {
                                if phi.contains(v) {
                                    let a = choose|a: int| 0 <= a < phi.len() && phi[a] == v;
                                    assert(ext[a] == v);
                                }
                                if v == cand {
                                    assert(ext[phi.len() as int] == v);
                                }
                            }
                        }
                        self.backtrack(
                            current_var + 1,
                            assignment,
                            used_nodes,
                            results,
                            as_of,
                            Ghost(starts),
                        );
                        used_nodes.remove(&cand);
                        assignment.pop();
                        proof {
                            let ext = phi.push(cand);
                            let after = rows(results@);
                            let old_part = mid.skip(before.len() as int);
                            let new_part = after.skip(mid.len() as int);
                            let all = after.skip(before.len() as int);
                            assert(assignment@ =~= phi);
                            assert(used_nodes@ =~= used);
                            assert(after.take(before.len() as int) =~= mid.take(before.len() as int));
                            assert(all =~= old_part + new_part);
                            assert(j + 1 - 1 == j);
                            assert(!phi.contains(cand));
                            assert(after =~= before + search_through(
                                m,
                                p,
                                phi,
                                as_of,
                                cands@,
                                (j + 1) as nat,
                            ));
                            assert forall|psi: Seq<u32>| #[trigger]
                                all.contains(psi) <==> extends_to(m, p, starts, as_of, phi, psi)
                                    && next.contains(psi[current_var as int]) by {
                                if all.contains(psi) {
                                    let a = choose|a: int| 0 <= a < all.len() && all[a] == psi;
                                    if a < old_part.len() {
                                        assert(old_part[a] == psi);
                                        assert(old_part.contains(psi));
                                    } else {
                                        assert(new_part[a - old_part.len()] == psi);
                                        assert(new_part.contains(psi));
                                        assert(extends_to(m, p, starts, as_of, ext, psi));
                                        assert(psi.take(ext.len() as int)[current_var as int]
                                            == psi[current_var as int]);
                                        assert(psi.take(phi.len() as int) =~= psi.take(
                                            ext.len() as int,
                                        ).take(phi.len() as int));
                                        assert(ext.take(phi.len() as int) =~= phi);
                                    }
                                }
                                if extends_to(m, p, starts, as_of, phi, psi) && next.contains(
                                    psi[current_var as int],
                                ) {
                                    if done.contains(psi[current_var as int]) {
                                        assert(old_part.contains(psi));
                                        let a = choose|a: int|
                                            0 <= a < old_part.len() && old_part[a] == psi;
                                        assert(all[a] == psi);
                                    } else {
                                        lemma_match_prefix(m, p, starts, as_of, psi, current_var as int);
                                        assert(psi.take(current_var + 1) == ext);
                                        assert(extends_to(m, p, starts, as_of, ext, psi));
                                        assert(new_part.contains(psi));
                                        let a = choose|a: int|
                                            0 <= a < new_part.len() && new_part[a] == psi;
                                        assert(all[old_part.len() + a] == psi);
                                    }
                                }
                            }
                            assert forall|a: int, b: int|
                                0 <= a < all.len() && 0 <= b < all.len() && a != b implies all[a]
                                != all[b] by {
                                if a < old_part.len() && b >= old_part.len() {
                                    assert(old_part[a] == all[a]);
                                    assert(old_part.contains(all[a]));
                                    assert(new_part[b - old_part.len()] == all[b]);
                                    assert(new_part.contains(all[b]));
                                    assert(extends_to(m, p, starts, as_of, ext, all[b]));
                                    assert(all[b].take(ext.len() as int)[current_var as int]
                                        == all[b][current_var as int]);
                                } else if b < old_part.len() && a >= old_part.len() {
                                    assert(old_part[b] == all[b]);
                                    assert(old_part.contains(all[b]));
                                    assert(new_part[a - old_part.len()] == all[a]);
                                    assert(new_part.contains(all[a]));
                                    assert(extends_to(m, p, starts, as_of, ext, all[a]));
                                    assert(all[a].take(ext.len() as int)[current_var as int]
                                        == all[a][current_var as int]);
                                } else if a >= old_part.len() {
                                    assert(new_part[a - old_part.len()] == all[a]);
                                    assert(new_part[b - old_part.len()] == all[b]);
                                } else {
                                    assert(old_part[a] == all[a]);
                                    assert(old_part[b] == all[b]);
                                }
                            }
                        }
                    } else {
                        proof {
                            let all = mid.skip(before.len() as int);
                            assert(j + 1 - 1 == j);
                            assert(phi.contains(cand));
                            assert(search_through(m, p, phi, as_of, cands@, (j + 1) as nat)
                                == search_through(m, p, phi, as_of, cands@, j as nat));
                            assert forall|psi: Seq<u32>| #[trigger]
                                all.contains(psi) <==> extends_to(m, p, starts, as_of, phi, psi)
                                    && next.contains(psi[current_var as int]) by {
                                if extends_to(m, p, starts, as_of, phi, psi) && psi[current_var as int]
                                    == cand {
                                    lemma_match_prefix(m, p, starts, as_of, psi, current_var as int);
                                }
                            }
                        }
                    }
                    j += 1;
                }
                proof {
                    let all = rows(results@).skip(before.len() as int);
                    assert(cands@.take(cands.len() as int) =~= cands@);
                    assert(search(m, p, phi, as_of) == search_through(
                        m,
                        p,
                        phi,
                        as_of,
                        cands@,
                        cands@.len(),
                    ));
                    assert forall|psi: Seq<u32>|
                        #![trigger all.contains(psi)]
                        #![trigger extends_to(m, p, starts, as_of, phi, psi)]
                        all.contains(psi) <==> extends_to(m, p, starts, as_of, phi, psi) by {
                        if extends_to(m, p, starts, as_of, phi, psi) {
                            lemma_match_prefix(m, p, starts, as_of, psi, current_var as int);
                            assert(cands@.contains(psi[current_var as int]));
                        }
                    }
                }
            },
        }
    }

    /// Narrows the candidates found so far by a further neighbour list:
    /// with no candidates yet, the list becomes the candidates; otherwise
    /// only the candidates that the list holds too remain.
    fn intersect(&self, current: Option<Vec<u32>>, next: Vec<u32>) -> (r: Option<Vec<u32>>)
        ensures
            match current {
                None => r == Some(next),
                Some(curr) => r matches Some(both) && both@ == common(curr@, next@),
            },
    {
        match current {
            None => Some(next),
            Some(curr) => {
                let mut set: HashSet<u32> = HashSet::new();
                let mut i: usize = 0;
                while i < next.len()
                    invariant
                        i <= next.len(),
                        forall|v: u32| set@.contains(v) <==> next@.take(i as int).contains(v),
                    decreases next.len() - i,
                {
                    let ghost seen = next@.take(i as int);
                    set.insert(next[i]);
                    proof {
                        let now = next@.take(i + 1);
                        assert forall|v: u32| set@.contains(v) <==> now.contains(v) by {
                            if seen.contains(v) {
                                let k = choose|k: int| 0 <= k < seen.len() && seen[k] == v;
                                assert(now[k] == v);
                            }
                            if v == next[i as int] {
                                assert(now[i as int] == v);
                            }
                            if now.contains(v) {
                                let k = choose|k: int| 0 <= k < now.len() && now[k] == v;
                                if k < i {
                                    assert(seen[k] == v);
                                }
                            }
                        }
                    }
                    i += 1;
                }
                proof {
                    assert(next@.take(next.len() as int) =~= next@);
                }
                let ghost keep = |id: u32| next@.contains(id);
                let mut both: Vec<u32> = Vec::new();
                let mut j: usize = 0;
                while j < curr.len()
                    invariant
                        j <= curr.len(),
                        keep == (|id: u32| next@.contains(id)),
                        forall|v: u32| set@.contains(v) <==> next@.contains(v),
                        both@ == curr@.take(j as int).filter(keep),
                    decreases curr.len() - j,
                {
                    proof {
                        reveal(Seq::filter);
                        assert(curr@.take(j + 1).drop_last() =~= curr@.take(j as int));
                        assert(curr@.take(j + 1).last() == curr@[j as int]);
                    }
                    if set.contains(&curr[j]) {
                        both.push(curr[j]);
                    }
                    j += 1;
                }
                proof {
                    assert(curr@.take(curr.len() as int) =~= curr@);
                }
                Some(both)
            },
        }
    }
}

} // verus!
