//! Equivalence groups: the memo's classes of equivalent multi-expressions.

use vstd::prelude::*;
use crate::mexpr::{MExpr, same_mexpr, opt_same_mexpr};
use crate::sourcenode::SourceNode;
use crate::hashing::{xxh3_of_str, xxh3_str};
use std::collections::VecDeque;

verus! {

/// Whether the first cost beats the second, an absent cost standing for an
/// unknown, infinitely expensive one.
pub open spec fn cost_lt(a: Option<u64>, b: Option<u64>) -> bool {
    match a {
        Some(x) => match b {
            Some(y) => x < y,
            None => true,
        },
        None => false,
    }
}

/// The expression a left-to-right scan for the cheapest member settles on,
/// starting from a previously chosen one.
pub open spec fn min_from(seed: Option<MExpr>, s: Seq<MExpr>) -> Option<MExpr>
    decreases s.len(),
{
    if s.len() == 0 {
        seed
    } else {
        let prev = min_from(seed, s.drop_last());
        if match prev {
            Some(p) => cost_lt(s.last().cost, p.cost),
            None => true,
        } {
            Some(s.last())
        } else {
            prev
        }
    }
}

/// The cost of an optional expression.
pub open spec fn opt_cost(o: Option<MExpr>) -> Option<u64> {
    match o {
        Some(e) => e.cost,
        None => None,
    }
}

/// The least cost among a list of expressions, an absent cost counting as
/// infinite.
pub open spec fn seq_min_cost(s: Seq<MExpr>) -> Option<u64>
    decreases s.len(),
{
    if s.len() == 0 {
        None
    } else {
        let rest = seq_min_cost(s.drop_last());
        if cost_lt(s.last().cost, rest) {
            s.last().cost
        } else {
            rest
        }
    }
}

/// The scan settles on its seed or on one of the scanned expressions.
pub proof fn lemma_min_from_cases(seed: Option<MExpr>, s: Seq<MExpr>)
    ensures
        min_from(seed, s) == seed || exists|i: int|
            0 <= i < s.len() && min_from(seed, s) == Some(s[i]),
    decreases s.len(),
{
    if s.len() > 0 {
        lemma_min_from_cases(seed, s.drop_last());
        let rest = s.drop_last();
        if min_from(seed, s) == Some(s.last()) {
            assert(min_from(seed, s) == Some(s[s.len() - 1]));
        } else {
            assert(min_from(seed, s) == min_from(seed, rest));
            if min_from(seed, rest) != seed {
                let i = choose|i: int| 0 <= i < rest.len() && min_from(seed, rest) == Some(rest[i]);
                assert(s[i] == rest[i]);
            }
        }
    }
}

/// No scanned expression costs less than the least scanned cost.
pub proof fn lemma_seq_min_lower(s: Seq<MExpr>)
    ensures
        forall|i: int| 0 <= i < s.len() ==> !cost_lt((#[trigger] s[i]).cost, seq_min_cost(s)),
    decreases s.len(),
{
    if s.len() > 0 {
        let rest = s.drop_last();
        lemma_seq_min_lower(rest);
        assert forall|i: int| 0 <= i < s.len() implies !cost_lt(
            (#[trigger] s[i]).cost,
            seq_min_cost(s),
        ) by {
            if i < s.len() - 1 {
                assert(rest[i] == s[i]);
                assert(!cost_lt(s[i].cost, seq_min_cost(rest)));
            }
        }
    }
}

/// The scan's winner never costs more than the seed or any scanned
/// expression.
pub proof fn lemma_min_from_le(seed: Option<MExpr>, s: Seq<MExpr>)
    ensures
        match seed {
            Some(p) => !cost_lt(p.cost, opt_cost(min_from(seed, s))),
            None => true,
        },
        forall|i: int|
            0 <= i < s.len() ==> !cost_lt((#[trigger] s[i]).cost, opt_cost(min_from(seed, s))),
    decreases s.len(),
{
    if s.len() > 0 {
        let rest = s.drop_last();
        lemma_min_from_le(seed, rest);
        assert forall|i: int|
            0 <= i < s.len() implies !cost_lt(
            (#[trigger] s[i]).cost,
            opt_cost(min_from(seed, s)),
        ) by {
            if i < s.len() - 1 {
                assert(rest[i] == s[i]);
                assert(!cost_lt(s[i].cost, opt_cost(min_from(seed, rest))));
            }
        }
    }
}

/// The scan's winner carries the least cost among the scanned expressions,
/// as long as the seed cannot beat all of them.
pub proof fn lemma_min_from_cost(seed: Option<MExpr>, s: Seq<MExpr>)
    requires
        match seed {
            Some(p) => exists|i: int| 0 <= i < s.len() && !cost_lt(p.cost, s[i].cost),
            None => true,
        },
    ensures
        opt_cost(min_from(seed, s)) == seq_min_cost(s),
{
    let w = min_from(seed, s);
    lemma_min_from_cases(seed, s);
    lemma_min_from_le(seed, s);
    lemma_seq_min_lower(s);
    lemma_seq_min_witness(s);
    match seed {
        Some(p) => {
            let i = choose|i: int| 0 <= i < s.len() && !cost_lt(p.cost, s[i].cost);
            assert(!cost_lt(s[i].cost, opt_cost(w)));
            assert(!cost_lt(p.cost, s[i].cost));
            if w == seed {
                if s.len() > 0 {
                    let j = choose|j: int|
                        0 <= j < s.len() && seq_min_cost(s) == s[j].cost && !cost_lt(
                            seq_min_cost(s),
                            s[j].cost,
                        );
                    assert(!cost_lt(s[j].cost, opt_cost(w)));
                }
            } else {
                let k = choose|k: int| 0 <= k < s.len() && w == Some(s[k]);
                assert(!cost_lt(s[k].cost, seq_min_cost(s)));
            }
        },
        None => {
            if w == seed {
                if s.len() > 0 {
                    lemma_min_none_seed(s);
                }
            } else {
                let k = choose|k: int| 0 <= k < s.len() && w == Some(s[k]);
                assert(!cost_lt(s[k].cost, seq_min_cost(s)));
                let j = choose|j: int| 0 <= j < s.len() && seq_min_cost(s) == s[j].cost;
                assert(!cost_lt(s[j].cost, opt_cost(w)));
            }
        },
    }
}

/// A scan with no seed over a nonempty list settles on an expression.
proof fn lemma_min_none_seed(s: Seq<MExpr>)
    requires
        s.len() > 0,
    ensures
        min_from(None, s) is Some,
    decreases s.len(),
{
    if s.len() > 1 {
        lemma_min_none_seed(s.drop_last());
    }
}

/// The least cost is attained by some scanned expression, when any exist.
proof fn lemma_seq_min_witness(s: Seq<MExpr>)
    ensures
        s.len() > 0 ==> exists|j: int| 0 <= j < s.len() && seq_min_cost(s) == (#[trigger] s[j]).cost,
    decreases s.len(),
{
    if s.len() > 0 {
        let rest = s.drop_last();
        lemma_seq_min_witness(rest);
        if cost_lt(s.last().cost, seq_min_cost(rest)) {
            assert(seq_min_cost(s) == s[s.len() - 1].cost);
        } else if rest.len() > 0 {
            let j = choose|j: int| 0 <= j < rest.len() && seq_min_cost(rest) == rest[j].cost;
            assert(seq_min_cost(s) == s[j].cost);
        } else {
            assert(seq_min_cost(s) == s[s.len() - 1].cost);
        }
    }
}

/// The fingerprint a group stands under: its start expression's fingerprint,
/// or one derived from its source-node identity, or zero.
pub open spec fn group_hash_of(g: Group) -> u64 {
    match g.start_expression {
        Some(e) => e.hash,
        None => match g.source_node {
            Some(s) => xxh3_of_str(s.node_id@),
            None => 0,
        },
    }
}

/// The row count a group reports: its cheapest member's once explored, and
/// its start expression's before that.
pub open spec fn group_row_count_of(g: Group) -> u64 {
    if g.explored {
        match g.cheapest_logical_expression {
            Some(e) => e.row_count,
            None => 0,
        }
    } else {
        match g.start_expression {
            Some(e) => e.row_count,
            None => 0,
        }
    }
}

/// The cost a group reports: its cached minimum, or zero while unknown.
pub open spec fn group_cost_of(g: Group) -> u64 {
    match g.min_cost {
        Some(c) => c,
        None => 0,
    }
}

/// An equivalence class of logically equivalent multi-expressions: a queue of
/// unexplored members, the explored members, and the cheapest one found.
#[derive(Debug)]
pub struct Group {
    pub explored: bool,
    pub min_cost: Option<u64>,
    pub start_expression: Option<MExpr>,
    pub cheapest_logical_expression: Option<MExpr>,
    pub unexplored_equivalent_logical_mexprs: VecDeque<MExpr>,
    pub equivalent_logical_mexprs: Vec<MExpr>,
    pub source_node: Option<SourceNode>,
}

impl Group {
    /// A fresh group seeded with one expression, not yet queued.
    pub fn new(start_expression: MExpr) -> (g: Group)
        ensures
            !g.explored,
            g.min_cost is None,
            g.start_expression == Some(start_expression),
            g.cheapest_logical_expression is None,
            g.unexplored_equivalent_logical_mexprs@ == Seq::<MExpr>::empty(),
            g.equivalent_logical_mexprs@ == Seq::<MExpr>::empty(),
            g.source_node is None,
    {
        Group {
            explored: false,
            min_cost: None,
            start_expression: Some(start_expression),
            cheapest_logical_expression: None,
            unexplored_equivalent_logical_mexprs: VecDeque::new(),
            equivalent_logical_mexprs: Vec::new(),
            source_node: None,
        }
    }

    /// A fresh group whose seed expression is already queued for
    /// exploration.
    pub fn from_mexpr(mexpr: MExpr) -> (g: Group)
        ensures
            !g.explored,
            g.min_cost is None,
            g.cheapest_logical_expression is None,
            g.start_expression matches Some(s) && same_mexpr(s, mexpr),
            g.unexplored_equivalent_logical_mexprs@ == seq![mexpr],
            g.equivalent_logical_mexprs@ == Seq::<MExpr>::empty(),
            g.source_node is None,
            group_hash_of(g) == mexpr.hash,
    {
        let start = mexpr.clone_mexpr();
        let mut g = Group::new(start);
        g.unexplored_equivalent_logical_mexprs.push_back(mexpr);
        proof {
            assert(g.unexplored_equivalent_logical_mexprs@ =~= seq![mexpr]);
        }
        g
    }

    /// A group that stands for a raw source leaf, carrying only its node
    /// identity.
    pub fn get_source_node_group(node_id: String) -> (g: Group)
        ensures
            !g.explored,
            g.start_expression is None,
            g.source_node matches Some(s) && s.node_id@ == node_id@,
            group_hash_of(g) == xxh3_of_str(node_id@),
            g.unexplored_equivalent_logical_mexprs@ == Seq::<MExpr>::empty(),
            g.equivalent_logical_mexprs@ == Seq::<MExpr>::empty(),
    {
        Group {
            explored: false,
            min_cost: None,
            start_expression: None,
            cheapest_logical_expression: None,
            unexplored_equivalent_logical_mexprs: VecDeque::new(),
            equivalent_logical_mexprs: Vec::new(),
            source_node: Some(SourceNode::new(node_id)),
        }
    }

    /// The fingerprint this group stands under in the memo.
    pub fn get_group_hash(&self) -> (r: u64)
        ensures
            r == group_hash_of(*self),
    {
        match &self.start_expression {
            Some(e) => e.hash(),
            None => match &self.source_node {
                Some(s) => xxh3_str(s.node_id.as_str()),
                None => 0,
            },
        }
    }

    /// The cheapest member's row count once explored; the start expression's
    /// before that.
    pub fn get_group_row_count(&self) -> (r: u64)
        ensures
            r == group_row_count_of(*self),
    {
        if self.explored {
            match &self.cheapest_logical_expression {
                Some(e) => e.row_count(),
                None => 0,
            }
        } else {
            match &self.start_expression {
                Some(e) => e.row_count(),
                None => 0,
            }
        }
    }

    /// The cached minimum cost, or zero while it is unknown.
    pub fn get_group_cost(&self) -> (r: u64)
        ensures
            r == group_cost_of(*self),
    {
        match self.min_cost {
            Some(c) => c,
            None => 0,
        }
    }

    /// Marks the group explored (or not) and recomputes the cheapest member
    /// and the cached minimum cost from the explored list.
    pub fn set_explored(&mut self, explored: bool)
        ensures
            final(self).explored == explored,
            opt_same_mexpr(
                final(self).cheapest_logical_expression,
                min_from(
                    old(self).cheapest_logical_expression,
                    old(self).equivalent_logical_mexprs@,
                ),
            ),
            final(self).min_cost == opt_cost(
                min_from(
                    old(self).cheapest_logical_expression,
                    old(self).equivalent_logical_mexprs@,
                ),
            ),
            final(self).start_expression == old(self).start_expression,
            final(self).equivalent_logical_mexprs == old(self).equivalent_logical_mexprs,
            final(self).unexplored_equivalent_logical_mexprs == old(
                self,
            ).unexplored_equivalent_logical_mexprs,
            final(self).source_node == old(self).source_node,
    {
        self.explored = explored;
        let ghost eq = self.equivalent_logical_mexprs@;
        let mut i: usize = 0;
        while i < self.equivalent_logical_mexprs.len()
            invariant
                i <= eq.len(),
                eq == self.equivalent_logical_mexprs@,
                opt_same_mexpr(
                    self.cheapest_logical_expression,
                    min_from(old(self).cheapest_logical_expression, eq.take(i as int)),
                ),
                self.explored == explored,
                self.start_expression == old(self).start_expression,
                self.equivalent_logical_mexprs == old(self).equivalent_logical_mexprs,
                self.unexplored_equivalent_logical_mexprs == old(
                    self,
                ).unexplored_equivalent_logical_mexprs,
                self.source_node == old(self).source_node,
                self.min_cost == old(self).min_cost,
            decreases eq.len() - i,
        {
            proof {
                assert(eq.take(i as int + 1).drop_last() =~= eq.take(i as int));
                assert(eq.take(i as int + 1).last() == eq[i as int]);
            }
            let replace = match &self.cheapest_logical_expression {
                Some(p) => {
                    let m = &self.equivalent_logical_mexprs[i];
                    match m.cost {
                        Some(c) => match p.cost {
                            Some(pc) => c < pc,
                            None => true,
                        },
                        None => false,
                    }
                },
                None => true,
            };
            if replace {
                self.cheapest_logical_expression = Some(
                    self.equivalent_logical_mexprs[i].clone_mexpr(),
                );
            }
            i = i + 1;
        }
        proof {
            assert(eq.take(eq.len() as int) =~= eq);
        }
        self.min_cost = match &self.cheapest_logical_expression {
            Some(e) => e.cost,
            None => None,
        };
    }

    /// Whether this group has been fully explored.
    pub fn is_explored(&self) -> (r: bool)
        ensures
            r == self.explored,
    {
        self.explored
    }
}

} // verus!
