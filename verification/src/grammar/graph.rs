//! Static analysis over the rule reference graph: unreachable rules
//! and trap loops.
//!
//! Nodes are the distinct rule names; there is an edge from `a` to `b`
//! when some rule named `a` references a non-terminal named `b`. A
//! strongly connected component is a trap loop when no rule in it can
//! escape: a rule escapes when one of its alternatives consists only
//! of ground symbols, references outside the component, or references
//! to rules already known to escape; the set of escaping rules is a
//! fixed point reached in at most as many passes as there are nodes.

use vstd::prelude::*;

use crate::error::Error;
use crate::grammar::alt::AlternativeView;
use crate::grammar::rule::{Rule, RuleView};
use crate::grammar::symbol::SymbolKindView;
use crate::span::Span;

verus! {

/// Whether the edge list has an edge from `a` to `b`.
pub open spec fn has_edge(es: Seq<(usize, usize)>, a: int, b: int) -> bool {
    exists|k: int| 0 <= k < es.len() && (#[trigger] es[k]).0 == a && es[k].1 == b
}

/// Whether `p` is a walk along the edges.
pub open spec fn is_walk(es: Seq<(usize, usize)>, p: Seq<int>) -> bool {
    forall|x: int| 0 <= x < p.len() - 1 ==> has_edge(es, #[trigger] p[x], p[x + 1])
}

/// Whether `b` is reachable from `a`: some walk starts at `a` and
/// ends at `b` (every node reaches itself).
pub open spec fn reach(es: Seq<(usize, usize)>, a: int, b: int) -> bool {
    exists|p: Seq<int>|
        #![trigger is_walk(es, p)]
        p.len() >= 1 && p[0] == a && p.last() == b && is_walk(es, p)
}

/// The strongly connected component of `u`: the nodes mutually
/// reachable with it.
pub open spec fn scc_of(es: Seq<(usize, usize)>, n: int, u: int) -> Set<int> {
    Set::new(|v: int| 0 <= v < n && reach(es, u, v) && reach(es, v, u))
}

/// Whether some group of the partition holds `v`.
pub open spec fn in_some_group(groups: Seq<Vec<usize>>, v: int) -> bool {
    exists|i: int| 0 <= i < groups.len() && set_of_group((#[trigger] groups[i])@).contains(v)
}

/// Reachability composes: a walk to `b` followed by a walk from `b`
/// reaches `c`.
pub proof fn lemma_reach_trans(es: Seq<(usize, usize)>, a: int, b: int, c: int)
    requires
        reach(es, a, b),
        reach(es, b, c),
    ensures
        reach(es, a, c),
{
    let p1 = choose|p: Seq<int>| p.len() >= 1 && p[0] == a && p.last() == b && is_walk(es, p);
    let p2 = choose|p: Seq<int>| p.len() >= 1 && p[0] == b && p.last() == c && is_walk(es, p);
    let p = p1 + p2.subrange(1, p2.len() as int);
    assert(p.len() == p1.len() + p2.len() - 1);
    assert(p[0] == a);
    if p2.len() == 1 {
        assert(p =~= p1);
        assert(p.last() == c);
    } else {
        assert(p.last() == p2.last());
    }
    assert forall|x: int| 0 <= x < p.len() - 1 implies has_edge(es, #[trigger] p[x], p[x + 1]) by {
        if x < p1.len() - 1 {
            assert(p[x] == p1[x] && p[x + 1] == p1[x + 1]);
        } else if x == p1.len() - 1 {
            assert(p[x] == p1.last());
            assert(p[x + 1] == p2[1]);
            assert(has_edge(es, p2[0], p2[1]));
        } else {
            let y = x - p1.len() + 1;
            assert(p[x] == p2[y] && p[x + 1] == p2[y + 1]);
            assert(has_edge(es, p2[y], p2[y + 1]));
        }
    }
    assert(is_walk(es, p));
    assert(reach(es, a, c));
}

/// The first index of `nm` among the node names (the length when
/// absent).
pub open spec fn nidx(names: Seq<Seq<char>>, nm: Seq<char>) -> int
    decreases names.len(),
{
    if names.len() == 0 {
        0
    } else if names[0] == nm {
        0
    } else {
        1 + nidx(names.drop_first(), nm)
    }
}

/// Whether `nm` is among the node names.
pub open spec fn in_names(names: Seq<Seq<char>>, nm: Seq<char>) -> bool {
    exists|i: int| 0 <= i < names.len() && names[i] == nm
}

/// `nidx` finds the first occurrence, or the length when absent.
pub proof fn lemma_nidx(names: Seq<Seq<char>>, nm: Seq<char>)
    ensures
        in_names(names, nm) ==> 0 <= nidx(names, nm) < names.len() && names[nidx(names, nm)]
            == nm,
        !in_names(names, nm) ==> nidx(names, nm) == names.len(),
        forall|k: int| 0 <= k < nidx(names, nm) ==> names[k] != nm,
    decreases names.len(),
{
    if names.len() > 0 && names[0] != nm {
        lemma_nidx(names.drop_first(), nm);
        if in_names(names, nm) {
            let w = choose|i: int| 0 <= i < names.len() && names[i] == nm;
            assert(names.drop_first()[w - 1] == nm);
        }
        if in_names(names.drop_first(), nm) {
            let w = choose|i: int| 0 <= i < names.drop_first().len() && names.drop_first()[i]
                == nm;
            assert(names[w + 1] == nm);
        }
        assert forall|k: int| 0 <= k < nidx(names, nm) implies names[k] != nm by {
            if k > 0 {
                assert(names.drop_first()[k - 1] != nm);
            }
        }
    }
}

/// Whether the alternative lets its rule escape component `c`, given
/// the escaping set `e`: every symbol is ground, references outside
/// the component, or references an escaping node.
pub open spec fn alt_escapes(
    a: AlternativeView,
    names: Seq<Seq<char>>,
    c: Set<int>,
    e: Set<int>,
) -> bool {
    forall|k: int|
        0 <= k < a.symbols.len() ==> (match (#[trigger] a.symbols[k]).kind {
            SymbolKindView::NonTerminal(nt) => {
                let w = nidx(names, nt.name);
                !c.contains(w) || e.contains(w)
            },
            _ => true,
        })
}

/// Whether node `v` is found to escape in one pass, given the
/// escaping set `e`: some rule named after it has an escaping
/// alternative.
pub open spec fn node_escapes(
    rs: Seq<RuleView>,
    names: Seq<Seq<char>>,
    c: Set<int>,
    e: Set<int>,
    v: int,
) -> bool {
    exists|i: int, j: int|
        0 <= i < rs.len() && (#[trigger] rs[i]).lhs.name == names[v] && 0 <= j
            < rs[i].production.len() && alt_escapes(#[trigger] rs[i].production[j], names, c, e)
}

/// The escaping set after `fuel` passes of the fixed-point
/// computation over component `c`.
pub open spec fn esc_iter(
    rs: Seq<RuleView>,
    names: Seq<Seq<char>>,
    c: Set<int>,
    fuel: nat,
) -> Set<int>
    decreases fuel,
{
    if fuel == 0 {
        Set::empty()
    } else {
        let e = esc_iter(rs, names, c, (fuel - 1) as nat);
        e.union(Set::new(|v: int| c.contains(v) && node_escapes(rs, names, c, e, v)))
    }
}

/// Whether component `c` is a trap loop: after as many passes as
/// there are nodes, no rule in it escapes.
pub open spec fn is_trap(rs: Seq<RuleView>, names: Seq<Seq<char>>, c: Set<int>) -> bool {
    forall|v: int| !esc_iter(rs, names, c, names.len() as nat).contains(v)
}

/// Whether the grammar has a trap loop: the strongly connected
/// component of some node is one.
pub open spec fn has_trap_loop(
    rs: Seq<RuleView>,
    names: Seq<Seq<char>>,
    es: Seq<(usize, usize)>,
) -> bool {
    exists|u: int| 0 <= u < names.len() && is_trap(rs, names, scc_of(es, names.len() as int, u))
}

/// Whether some rule named `a` references a non-terminal named `b`.
pub open spec fn rule_refs(rs: Seq<RuleView>, a: Seq<char>, b: Seq<char>) -> bool {
    exists|i: int, j: int, k: int|
        0 <= i < rs.len() && (#[trigger] rs[i]).lhs.name == a && 0 <= j < rs[i].production.len()
            && 0 <= k < rs[i].production[j].symbols.len() && ((
        #[trigger] rs[i].production[j].symbols[k]).kind matches SymbolKindView::NonTerminal(nt)
            && nt.name == b)
}

/// The spans of the rules whose name-node is unreachable from `s`,
/// in rule order, from rule `i` on.
pub open spec fn unreach_spans(
    rs: Seq<RuleView>,
    ns: Seq<Seq<char>>,
    es: Seq<(usize, usize)>,
    s: int,
    i: int,
) -> Seq<Span>
    decreases rs.len() - i,
{
    if i < 0 || i >= rs.len() {
        Seq::empty()
    } else {
        (if !reach(es, s, nidx(ns, rs[i].lhs.name)) {
            seq![rs[i].span]
        } else {
            Seq::empty()
        }) + unreach_spans(rs, ns, es, s, i + 1)
    }
}

/// The spans of the rules whose name-node sits in component `c`, in
/// rule order, from rule `i` on.
pub open spec fn trap_spans(
    rs: Seq<RuleView>,
    ns: Seq<Seq<char>>,
    c: Set<int>,
    i: int,
) -> Seq<Span>
    decreases rs.len() - i,
{
    if i < 0 || i >= rs.len() {
        Seq::empty()
    } else {
        (if c.contains(nidx(ns, rs[i].lhs.name)) {
            seq![rs[i].span]
        } else {
            Seq::empty()
        }) + trap_spans(rs, ns, c, i + 1)
    }
}

/// The graph form of a grammar: the distinct rule names as nodes, and
/// the references among them as edges.
pub struct GrammarGraph<'rule> {
    /// The rules, borrowed for spans and structure.
    pub rules: &'rule Vec<Rule>,
    /// The distinct rule names, in first-definition order.
    pub names: Vec<String>,
    /// One edge per referencing pair of node indices.
    pub edges: Vec<(usize, usize)>,
}

/// The models of the node names.
pub open spec fn name_views(names: Seq<String>) -> Seq<Seq<char>> {
    Seq::new(names.len(), |i: int| names[i]@)
}

/// The models of the rules.
pub open spec fn rule_views(rules: Seq<Rule>) -> Seq<RuleView> {
    Seq::new(rules.len(), |i: int| rules[i]@)
}

/// Well-formedness of a grammar graph: names are the distinct rule
/// names, and edges are exactly the references among them.
pub open spec fn graph_wf(g: GrammarGraph) -> bool {
    let rs = rule_views(g.rules@);
    let ns = name_views(g.names@);
    let es = g.edges@;
    &&& (forall|i: int, j: int| 0 <= i < j < ns.len() ==> ns[i] != ns[j])
    &&& (forall|i: int| 0 <= i < ns.len() ==> crate::grammar::raw::defines_name(rs, #[trigger] ns[i]))
    &&& (forall|i: int|
        0 <= i < rs.len() ==> in_names(ns, (#[trigger] rs[i]).lhs.name))
    &&& (forall|k: int|
        0 <= k < es.len() ==> (#[trigger] es[k]).0 < ns.len() && es[k].1 < ns.len())
    &&& (forall|a: int, b: int|
        0 <= a < ns.len() && 0 <= b < ns.len() ==> (has_edge(es, a, b) <==> rule_refs(
            rs,
            #[trigger] ns[a],
            #[trigger] ns[b],
        )))
}

/// Relies on petgraph's tarjan_scc: on the directed graph with nodes
/// `0 .. n` and the given edges, it returns the strongly connected
/// components — groups of distinct nodes that cover `0 .. n`, where
/// each group holds exactly the nodes mutually reachable with any of
/// its members.
#[verifier::external_body]
fn scc_partition(n: usize, edges: &Vec<(usize, usize)>) -> (r: Vec<Vec<usize>>)
    requires
        forall|k: int|
            0 <= k < edges@.len() ==> (#[trigger] edges@[k]).0 < n && edges@[k].1 < n,
    ensures
        forall|i: int| 0 <= i < r@.len() ==> (#[trigger] r@[i])@.len() >= 1,
        forall|i: int, j: int|
            0 <= i < r@.len() && 0 <= j < r@[i]@.len() ==> (#[trigger] r@[i]@[j]) < n,
        forall|v: int| #![trigger in_some_group(r@, v)] 0 <= v < n ==> in_some_group(r@, v),
        forall|i: int|
            0 <= i < r@.len() ==> set_of_group((#[trigger] r@[i])@) == scc_of(
                edges@,
                n as int,
                r@[i]@[0] as int,
            ),
{
    let mut g = petgraph::graph::DiGraph::<(), ()>::new();
    let idx: Vec<petgraph::graph::NodeIndex> = (0..n).map(|_| g.add_node(())).collect();
    for &(a, b) in edges.iter() {
        g.add_edge(idx[a], idx[b], ());
    }
    let sccs = petgraph::algo::tarjan_scc(&g);
    sccs.into_iter().map(|c| c.into_iter().map(|x| x.index()).collect()).collect()
}

/// Relies on petgraph's has_path_connecting: on the directed graph
/// with nodes `0 .. n` and the given edges, it returns whether a path
/// connects `from` to `to` (trivially when the two are equal).
#[verifier::external_body]
fn path_exists(n: usize, edges: &Vec<(usize, usize)>, from: usize, to: usize) -> (r: bool)
    requires
        from < n,
        to < n,
        forall|k: int|
            0 <= k < edges@.len() ==> (#[trigger] edges@[k]).0 < n && edges@[k].1 < n,
    ensures
        r == reach(edges@, from as int, to as int),
{
    let mut g = petgraph::graph::DiGraph::<(), ()>::new();
    let idx: Vec<petgraph::graph::NodeIndex> = (0..n).map(|_| g.add_node(())).collect();
    for &(a, b) in edges.iter() {
        g.add_edge(idx[a], idx[b], ());
    }
    petgraph::algo::has_path_connecting(&g, idx[from], idx[to], None)
}

impl<'rule> GrammarGraph<'rule> {
    /// Strict check: every node must be reachable from the rule named
    /// `start`; otherwise the unreachable rules are reported with
    /// their spans.
    pub fn check_unused(&self, start: &str) -> (r: crate::error::Result<&GrammarGraph>)
        requires
            graph_wf(*self),
            in_names(name_views(self.names@), start@),
        ensures
            r is Ok <==> (forall|v: int|
                0 <= v < name_views(self.names@).len() ==> reach(
                    self.edges@,
                    nidx(name_views(self.names@), start@),
                    v,
                )),
            r matches Err(e) ==> (e matches Error::UnreachableRules { spans } && spans@
                == unreach_spans(
                rule_views(self.rules@),
                name_views(self.names@),
                self.edges@,
                nidx(name_views(self.names@), start@),
                0,
            )),
    {
        let ghost ns = name_views(self.names@);
        let ghost es = self.edges@;
        let n = self.names.len();
        let s = self.find_name(start);
        let mut flags: Vec<bool> = Vec::new();
        let mut v: usize = 0;
        while v < n
            invariant
                graph_wf(*self),
                ns == name_views(self.names@),
                es == self.edges@,
                n == ns.len(),
                s < n,
                v <= n,
                flags@.len() == v,
                forall|w: int| 0 <= w < v ==> (#[trigger] flags@[w] == !reach(es, s as int, w)),
            decreases n - v,
        {
            let p = path_exists(n, &self.edges, s, v);
            flags.push(!p);
            v = v + 1;
        }
        let mut any = false;
        let mut w: usize = 0;
        while w < n
            invariant
                n == flags@.len(),
                w <= n,
                any == exists|q: int| 0 <= q < w && #[trigger] flags@[q],
            decreases n - w,
        {
            if flags[w] {
                any = true;
            }
            w = w + 1;
        }
        if !any {
            proof {
                assert forall|w2: int| 0 <= w2 < ns.len() implies reach(es, s as int, w2) by {
                    assert(!flags@[w2]);
                }
            }
            return Ok(self);
        }
        // collect the spans of the rules whose names are unreachable
        let ghost rs = rule_views(self.rules@);
        let mut spans: Vec<Span> = Vec::new();
        let mut i: usize = 0;
        while i < self.rules.len()
            invariant
                graph_wf(*self),
                rs == rule_views(self.rules@),
                rs.len() == self.rules@.len(),
                ns == name_views(self.names@),
                es == self.edges@,
                n == ns.len(),
                n == flags@.len(),
                forall|w: int| 0 <= w < n ==> (#[trigger] flags@[w] == !reach(es, s as int, w)),
                s < n,
                i <= self.rules@.len(),
                unreach_spans(rs, ns, es, s as int, 0) =~= spans@ + unreach_spans(
                    rs,
                    ns,
                    es,
                    s as int,
                    i as int,
                ),
            decreases self.rules@.len() - i,
        {
            let ghost before = spans@;
            proof {
                assert(in_names(ns, rs[i as int].lhs.name));
                lemma_nidx(ns, self.rules@[i as int].lhs.name@);
            }
            let w2 = self.name_index_of(&self.rules[i].lhs.name);
            proof {
                assert(w2 < n);
            }
            if w2 < n && flags[w2] {
                spans.push(self.rules[i].span);
                proof {
                    assert(!reach(es, s as int, nidx(ns, rs[i as int].lhs.name)));
                    assert(spans@ =~= before.push(rs[i as int].span));
                    assert((before + seq![rs[i as int].span]) + unreach_spans(
                        rs,
                        ns,
                        es,
                        s as int,
                        i as int + 1,
                    ) =~= before.push(rs[i as int].span) + unreach_spans(
                        rs,
                        ns,
                        es,
                        s as int,
                        i as int + 1,
                    ));
                }
            } else {
                proof {
                    assert(reach(es, s as int, nidx(ns, rs[i as int].lhs.name)));
                    assert(Seq::<Span>::empty() + unreach_spans(rs, ns, es, s as int, i as int + 1)
                        =~= unreach_spans(rs, ns, es, s as int, i as int + 1));
                }
            }
            i = i + 1;
        }
        proof {
            assert(unreach_spans(rs, ns, es, s as int, rs.len() as int) =~= Seq::<Span>::empty());
            assert(spans@ + Seq::<Span>::empty() =~= spans@);
            assert(spans@ =~= unreach_spans(rs, ns, es, s as int, 0));
            let q = choose|q: int| 0 <= q < n && #[trigger] flags@[q];
            assert(!reach(es, s as int, q));
        }
        Err(Error::UnreachableRules { spans })
    }

    /// The index of `nm` among the node names; callers ensure it is
    /// present.
    fn find_name(&self, nm: &str) -> (r: usize)
        requires
            in_names(name_views(self.names@), nm@),
        ensures
            r as int == nidx(name_views(self.names@), nm@),
            r < self.names@.len(),
    {
        let ghost ns = name_views(self.names@);
        let mut i: usize = 0;
        while i < self.names.len()
            invariant
                ns == name_views(self.names@),
                in_names(ns, nm@),
                i <= ns.len(),
                forall|k: int| 0 <= k < i ==> ns[k] != nm@,
            decreases self.names@.len() - i,
        {
            if crate::regex::str_eq(self.names[i].as_str(), nm) {
                proof {
                    lemma_nidx(ns, nm@);
                    assert(ns[i as int] == nm@);
                }
                return i;
            }
            proof {
                assert(ns[i as int] != nm@);
            }
            i = i + 1;
        }
        proof {
            let w = choose|w: int| 0 <= w < ns.len() && ns[w] == nm@;
            assert(ns[w] != nm@);
            assert(false);
        }
        0
    }

    /// Strict check: no strongly connected component may be a trap
    /// loop; otherwise the rules of one trapped component are
    /// reported with their spans.
    pub fn check_trap_loop(&self) -> (r: crate::error::Result<&GrammarGraph>)
        requires
            graph_wf(*self),
        ensures
            r is Ok <==> !has_trap_loop(
                rule_views(self.rules@),
                name_views(self.names@),
                self.edges@,
            ),
            r matches Err(e) ==> (e matches Error::TrapLoop { spans } && (exists|u: int|
                0 <= u < name_views(self.names@).len() && is_trap(
                    rule_views(self.rules@),
                    name_views(self.names@),
                    #[trigger] scc_of(self.edges@, name_views(self.names@).len() as int, u),
                ) && spans@ == trap_spans(
                    rule_views(self.rules@),
                    name_views(self.names@),
                    scc_of(self.edges@, name_views(self.names@).len() as int, u),
                    0,
                ))),
    {
        let ghost rs = rule_views(self.rules@);
        let ghost ns = name_views(self.names@);
        let ghost es = self.edges@;
        let n = self.names.len();
        let groups = scc_partition(n, &self.edges);
        let mut gi: usize = 0;
        while gi < groups.len()
            invariant
                graph_wf(*self),
                rs == rule_views(self.rules@),
                ns == name_views(self.names@),
                es == self.edges@,
                n == ns.len(),
                forall|i: int| 0 <= i < groups@.len() ==> (#[trigger] groups@[i])@.len() >= 1,
                forall|i: int, j: int|
                    0 <= i < groups@.len() && 0 <= j < groups@[i]@.len() ==> (
                    #[trigger] groups@[i]@[j]) < n,
                forall|v: int|
                    #![trigger in_some_group(groups@, v)]
                    0 <= v < n ==> in_some_group(groups@, v),
                forall|i: int|
                    0 <= i < groups@.len() ==> set_of_group((#[trigger] groups@[i])@) == scc_of(
                        es,
                        n as int,
                        groups@[i]@[0] as int,
                    ),
                gi <= groups@.len(),
                forall|i: int|
                    0 <= i < gi ==> !is_trap(rs, ns, set_of_group((#[trigger] groups@[i])@)),
            decreases groups@.len() - gi,
        {
            let group = &groups[gi];
            if self.group_is_trap(group) {
                proof {
                    let u = group@[0] as int;
                    assert(set_of_group(group@) == scc_of(es, n as int, u));
                    assert(is_trap(rs, ns, scc_of(es, n as int, u)));
                    assert(has_trap_loop(rs, ns, es));
                }
                let spans = self.group_spans(group);
                proof {
                    let u = group@[0] as int;
                    assert(spans@ == trap_spans(rs, ns, scc_of(es, n as int, u), 0));
                }
                return Err(Error::TrapLoop { spans });
            }
            gi = gi + 1;
        }
        proof {
            assert forall|u: int| 0 <= u < ns.len() implies !is_trap(
                rs,
                ns,
                scc_of(es, ns.len() as int, u),
            ) by {
                assert(is_walk(es, seq![u]));
                assert(reach(es, u, u));
                assert(reach(self.edges@, u, u));
                assert(in_some_group(groups@, u));
                let i = choose|i: int|
                    0 <= i < groups@.len() && set_of_group((#[trigger] groups@[i])@).contains(u);
                let w = groups@[i]@[0] as int;
                assert(set_of_group(groups@[i]@) == scc_of(es, n as int, w));
                assert(scc_of(es, n as int, w).contains(u));
                assert(reach(es, w, u) && reach(es, u, w));
                assert forall|v: int|
                    scc_of(es, n as int, u).contains(v) <==> scc_of(es, n as int, w).contains(
                        v,
                    ) by {
                    if scc_of(es, n as int, u).contains(v) {
                        lemma_reach_trans(es, w, u, v);
                        lemma_reach_trans(es, v, u, w);
                    }
                    if scc_of(es, n as int, w).contains(v) {
                        lemma_reach_trans(es, u, w, v);
                        lemma_reach_trans(es, v, w, u);
                    }
                }
                assert(scc_of(es, n as int, u) =~= scc_of(es, n as int, w));
                assert(!is_trap(rs, ns, set_of_group(groups@[i]@)));
            }
        }
        Ok(self)
    }

    /// The spans of the rules whose name-node sits in the group, in
    /// rule order.
    fn group_spans(&self, group: &Vec<usize>) -> (r: Vec<Span>)
        requires
            graph_wf(*self),
        ensures
            r@ == trap_spans(
                rule_views(self.rules@),
                name_views(self.names@),
                set_of_group(group@),
                0,
            ),
    {
        let ghost rs = rule_views(self.rules@);
        let ghost ns = name_views(self.names@);
        let ghost c = set_of_group(group@);
        let mut spans: Vec<Span> = Vec::new();
        let mut i: usize = 0;
        while i < self.rules.len()
            invariant
                graph_wf(*self),
                rs == rule_views(self.rules@),
                rs.len() == self.rules@.len(),
                ns == name_views(self.names@),
                c == set_of_group(group@),
                i <= self.rules@.len(),
                trap_spans(rs, ns, c, 0) =~= spans@ + trap_spans(rs, ns, c, i as int),
            decreases self.rules@.len() - i,
        {
            let ghost before = spans@;
            let w = self.name_index_of(&self.rules[i].lhs.name);
            let hit = contains_usize(group, w);
            proof {
                assert(w as int == nidx(ns, rs[i as int].lhs.name));
                assert(hit == c.contains(nidx(ns, rs[i as int].lhs.name)));
            }
            if hit {
                spans.push(self.rules[i].span);
                proof {
                    assert(spans@ =~= before.push(rs[i as int].span));
                    assert((before + seq![rs[i as int].span]) + trap_spans(rs, ns, c, i as int + 1)
                        =~= before.push(rs[i as int].span) + trap_spans(rs, ns, c, i as int + 1));
                }
            } else {
                proof {
                    assert(Seq::<Span>::empty() + trap_spans(rs, ns, c, i as int + 1)
                        =~= trap_spans(rs, ns, c, i as int + 1));
                }
            }
            i = i + 1;
        }
        proof {
            assert(trap_spans(rs, ns, c, rs.len() as int) =~= Seq::<Span>::empty());
            assert(spans@ + Seq::<Span>::empty() =~= spans@);
            assert(spans@ =~= trap_spans(rs, ns, c, 0));
        }
        spans
    }

    /// Runs the escape fixed point over the group: whether no node of
    /// it escapes after as many passes as there are nodes.
    fn group_is_trap(&self, group: &Vec<usize>) -> (r: bool)
        requires
            graph_wf(*self),
            forall|j: int| 0 <= j < group@.len() ==> (#[trigger] group@[j]) < self.names@.len(),
        ensures
            r == is_trap(
                rule_views(self.rules@),
                name_views(self.names@),
                set_of_group(group@),
            ),
    {
        let ghost rs = rule_views(self.rules@);
        let ghost ns = name_views(self.names@);
        let ghost c = set_of_group(group@);
        let n = self.names.len();
        let mut esc: Vec<bool> = vec_false(n);
        proof {
            assert(set_of_flags(esc@) =~= esc_iter(rs, ns, c, 0));
        }
        let mut pass: usize = 0;
        while pass < n
            invariant
                graph_wf(*self),
                rs == rule_views(self.rules@),
                ns == name_views(self.names@),
                c == set_of_group(group@),
                forall|j: int| 0 <= j < group@.len() ==> (#[trigger] group@[j]) < ns.len(),
                n == ns.len(),
                pass <= n,
                esc@.len() == n,
                set_of_flags(esc@) == esc_iter(rs, ns, c, pass as nat),
            decreases n - pass,
        {
            let ghost e_prev = set_of_flags(esc@);
            let mut next = clone_flags(&esc);
            let mut q: usize = 0;
            while q < group.len()
                invariant
                    graph_wf(*self),
                    rs == rule_views(self.rules@),
                    ns == name_views(self.names@),
                    c == set_of_group(group@),
                    forall|j: int| 0 <= j < group@.len() ==> (#[trigger] group@[j]) < ns.len(),
                    n == ns.len(),
                    esc@.len() == n,
                    next@.len() == n,
                    e_prev == set_of_flags(esc@),
                    q <= group@.len(),
                    forall|v: int|
                        0 <= v < n ==> ((#[trigger] next@[v]) <==> (e_prev.contains(v) || exists|
                            j: int,
                        |
                            #![auto]
                            0 <= j < q && group@[j] as int == v && node_escapes(
                                rs,
                                ns,
                                c,
                                e_prev,
                                v,
                            ))),
                decreases group@.len() - q,
            {
                let v = group[q];
                let ghost vv = v as int;
                let ghost next0 = next@;
                if !next[v] {
                    let esc_now = self.node_escapes_now(v, group, &esc);
                    if esc_now {
                        next.set(v, true);
                        proof {
                            assert(c.contains(vv));
                        }
                    }
                }
                proof {
                    assert forall|v2: int|
                        0 <= v2 < n implies ((#[trigger] next@[v2]) <==> (e_prev.contains(v2)
                            || exists|j: int|
                            #![auto]
                            0 <= j < q + 1 && group@[j] as int == v2 && node_escapes(
                                rs,
                                ns,
                                c,
                                e_prev,
                                v2,
                            ))) by {
                        if v2 == vv {
                            if !next0[vv] && node_escapes(rs, ns, c, e_prev, vv) {
                                assert(group@[q as int] as int == v2);
                                assert(next@[v2]);
                            }
                            if next@[v2] && !e_prev.contains(v2) {
                                if next0[vv] {
                                    let j0 = choose|j: int|
                                        #![auto]
                                        0 <= j < q && group@[j] as int == v2 && node_escapes(
                                            rs,
                                            ns,
                                            c,
                                            e_prev,
                                            v2,
                                        );
                                    assert(0 <= j0 < q + 1 && group@[j0] as int == v2
                                        && node_escapes(rs, ns, c, e_prev, v2));
                                } else {
                                    assert(node_escapes(rs, ns, c, e_prev, v2));
                                    assert(group@[q as int] as int == v2);
                                }
                            }
                        } else {
                            assert(next@[v2] == next0[v2]);
                            if next@[v2] && !e_prev.contains(v2) {
                                let j0 = choose|j: int|
                                    #![auto]
                                    0 <= j < q && group@[j] as int == v2 && node_escapes(
                                        rs,
                                        ns,
                                        c,
                                        e_prev,
                                        v2,
                                    );
                                assert(0 <= j0 < q + 1);
                            }
                            if exists|j: int|
                                #![auto]
                                0 <= j < q + 1 && group@[j] as int == v2 && node_escapes(
                                    rs,
                                    ns,
                                    c,
                                    e_prev,
                                    v2,
                                ) {
                                let j0 = choose|j: int|
                                    #![auto]
                                    0 <= j < q + 1 && group@[j] as int == v2 && node_escapes(
                                        rs,
                                        ns,
                                        c,
                                        e_prev,
                                        v2,
                                    );
                                if j0 == q {
                                    assert(group@[j0] as int == vv);
                                    assert(false);
                                }
                            }
                        }
                    }
                }
                q = q + 1;
            }
            proof {
                assert forall|v: int|
                    set_of_flags(next@).contains(v) <==> esc_iter(
                        rs,
                        ns,
                        c,
                        (pass + 1) as nat,
                    ).contains(v) by {
                    if 0 <= v < n {
                        if next@[v] {
                            if !e_prev.contains(v) {
                                let j = choose|j: int|
                                    #![auto]
                                    0 <= j < group@.len() && group@[j] as int == v
                                        && node_escapes(rs, ns, c, e_prev, v);
                                assert(c.contains(v));
                            }
                        } else {
                            if c.contains(v) && node_escapes(rs, ns, c, e_prev, v) {
                                let j = choose|j: int|
                                    #![auto]
                                    0 <= j < group@.len() && group@[j] as int == v;
                                assert(next@[v]);
                            }
                        }
                    } else {
                        if esc_iter(rs, ns, c, (pass + 1) as nat).contains(v) {
                            lemma_esc_in_c(rs, ns, c, (pass + 1) as nat, v);
                            assert(c.contains(v));
                            let j = choose|j: int|
                                #![auto]
                                0 <= j < group@.len() && group@[j] as int == v;
                        }
                        if set_of_flags(next@).contains(v) {
                            assert(false);
                        }
                    }
                }
                assert(set_of_flags(next@) =~= esc_iter(rs, ns, c, (pass + 1) as nat));
            }
            esc = next;
            pass = pass + 1;
        }
        // the component is a trap exactly when the escape set is empty
        let mut any = false;
        let mut v: usize = 0;
        while v < n
            invariant
                n == esc@.len(),
                v <= n,
                any == exists|w: int| 0 <= w < v && (#[trigger] esc@[w]),
            decreases n - v,
        {
            if esc[v] {
                any = true;
            }
            v = v + 1;
        }
        proof {
            if any {
                let w = choose|w: int| 0 <= w < n && (#[trigger] esc@[w]);
                assert(set_of_flags(esc@).contains(w));
            } else {
                assert forall|w: int| !set_of_flags(esc@).contains(w) by {
                    if 0 <= w < n {
                        assert(!esc@[w]);
                    }
                }
            }
        }
        !any
    }

    /// Whether some rule named after node `v` has an alternative
    /// whose symbols all escape, given the current escape flags.
    fn node_escapes_now(&self, v: usize, group: &Vec<usize>, esc: &Vec<bool>) -> (r: bool)
        requires
            graph_wf(*self),
            v < self.names@.len(),
            esc@.len() == self.names@.len(),
        ensures
            r == node_escapes(
                rule_views(self.rules@),
                name_views(self.names@),
                set_of_group(group@),
                set_of_flags(esc@),
                v as int,
            ),
    {
        let ghost rs = rule_views(self.rules@);
        let ghost ns = name_views(self.names@);
        let ghost c = set_of_group(group@);
        let ghost e = set_of_flags(esc@);
        let mut i: usize = 0;
        while i < self.rules.len()
            invariant
                graph_wf(*self),
                rs == rule_views(self.rules@),
                ns == name_views(self.names@),
                c == set_of_group(group@),
                e == set_of_flags(esc@),
                v < ns.len(),
                esc@.len() == ns.len(),
                i <= rs.len(),
                rs.len() == self.rules@.len(),
                forall|i2: int, j2: int|
                    0 <= i2 < i && (#[trigger] rs[i2]).lhs.name == ns[v as int] && 0 <= j2 < rs[i2].production.len()
                        ==> !alt_escapes(#[trigger] rs[i2].production[j2], ns, c, e),
            decreases self.rules@.len() - i,
        {
            if self.rules[i].lhs.name.eq(&self.names[v]) {
                let alts = &self.rules[i].production.alts;
                let ghost prod = rs[i as int].production;
                let mut j: usize = 0;
                while j < alts.len()
                    invariant
                        graph_wf(*self),
                        rs == rule_views(self.rules@),
                        ns == name_views(self.names@),
                        c == set_of_group(group@),
                        e == set_of_flags(esc@),
                        v < ns.len(),
                        esc@.len() == ns.len(),
                        i < rs.len(),
                        rs[i as int].lhs.name == ns[v as int],
                        prod == rs[i as int].production,
                        prod.len() == alts@.len(),
                        forall|k: int| 0 <= k < prod.len() ==> prod[k] == (#[trigger] alts@[k])@,
                        j <= prod.len(),
                        forall|j2: int|
                            0 <= j2 < j ==> !alt_escapes(#[trigger] prod[j2], ns, c, e),
                    decreases alts@.len() - j,
                {
                    if self.alt_escapes_now(&alts[j], group, esc) {
                        proof {
                            assert(rs[i as int].lhs.name == ns[v as int]);
                            assert(alt_escapes(rs[i as int].production[j as int], ns, c, e));
                        }
                        return true;
                    }
                    j = j + 1;
                }
            }
            i = i + 1;
        }
        proof {
            assert(!node_escapes(rs, ns, c, e, v as int));
        }
        false
    }

    /// Whether every symbol of the alternative escapes, given the
    /// current escape flags.
    fn alt_escapes_now(&self, alt: &crate::grammar::alt::Alternative, group: &Vec<usize>, esc:
        &Vec<bool>) -> (r: bool)
        requires
            graph_wf(*self),
            esc@.len() == self.names@.len(),
        ensures
            r == alt_escapes(
                alt@,
                name_views(self.names@),
                set_of_group(group@),
                set_of_flags(esc@),
            ),
    {
        let ghost ns = name_views(self.names@);
        let ghost c = set_of_group(group@);
        let ghost e = set_of_flags(esc@);
        let ghost av = alt@;
        let mut k: usize = 0;
        while k < alt.symbols.len()
            invariant
                graph_wf(*self),
                ns == name_views(self.names@),
                c == set_of_group(group@),
                e == set_of_flags(esc@),
                esc@.len() == ns.len(),
                av == alt@,
                av.symbols.len() == alt.symbols@.len(),
                forall|q: int|
                    0 <= q < av.symbols.len() ==> av.symbols[q] == (
                    #[trigger] alt.symbols@[q])@,
                k <= av.symbols.len(),
                forall|k2: int|
                    0 <= k2 < k ==> (match (#[trigger] av.symbols[k2]).kind {
                        SymbolKindView::NonTerminal(nt) => {
                            let w = nidx(ns, nt.name);
                            !c.contains(w) || e.contains(w)
                        },
                        _ => true,
                    }),
            decreases alt.symbols@.len() - k,
        {
            match &alt.symbols[k].kind {
                crate::grammar::symbol::SymbolKind::NonTerminal(nt) => {
                    let w = self.name_index_of(&nt.name);
                    let inside = contains_usize(group, w);
                    if inside {
                        let escaped = if (w as usize) < esc.len() {
                            esc[w]
                        } else {
                            false
                        };
                        if !escaped {
                            proof {
                                let w2 = nidx(ns, nt@.name);
                                assert(c.contains(w2) && !e.contains(w2));
                                assert(!alt_escapes(av, ns, c, e));
                            }
                            return false;
                        }
                        proof {
                            assert(e.contains(nidx(ns, nt@.name)));
                        }
                    } else {
                        proof {
                            assert(!c.contains(nidx(ns, nt@.name)));
                        }
                    }
                },
                _ => {},
            }
            k = k + 1;
        }
        true
    }

    /// The index of `nm` among the node names, or their count when it
    /// is not one of them.
    fn name_index_of(&self, nm: &String) -> (r: usize)
        ensures
            r as int == nidx(name_views(self.names@), nm@),
    {
        let ghost ns = name_views(self.names@);
        let mut i: usize = 0;
        while i < self.names.len()
            invariant
                ns == name_views(self.names@),
                i <= ns.len(),
                forall|k: int| 0 <= k < i ==> ns[k] != nm@,
            decreases self.names@.len() - i,
        {
            if self.names[i].eq(nm) {
                proof {
                    lemma_nidx(ns, nm@);
                    assert(ns[i as int] == nm@);
                }
                return i;
            }
            proof {
                assert(ns[i as int] != nm@);
            }
            i = i + 1;
        }
        proof {
            lemma_nidx(ns, nm@);
            if in_names(ns, nm@) {
                let w = choose|w: int| 0 <= w < ns.len() && ns[w] == nm@;
                assert(ns[w] != nm@);
                assert(false);
            }
        }
        self.names.len()
    }
}

/// The index of `nm` among `names`, or their count when absent.
pub fn name_index(names: &Vec<String>, nm: &String) -> (r: usize)
    ensures
        r as int == nidx(name_views(names@), nm@),
{
    let ghost ns = name_views(names@);
    let mut i: usize = 0;
    while i < names.len()
        invariant
            ns == name_views(names@),
            i <= ns.len(),
            forall|k: int| 0 <= k < i ==> ns[k] != nm@,
        decreases names@.len() - i,
    {
        if names[i].eq(nm) {
            proof {
                lemma_nidx(ns, nm@);
                assert(ns[i as int] == nm@);
            }
            return i;
        }
        proof {
            assert(ns[i as int] != nm@);
        }
        i = i + 1;
    }
    proof {
        lemma_nidx(ns, nm@);
        if in_names(ns, nm@) {
            let w = choose|w: int| 0 <= w < ns.len() && ns[w] == nm@;
            assert(ns[w] != nm@);
            assert(false);
        }
    }
    names.len()
}

/// Whether `nm` is among `names`.
pub fn contains_name(names: &Vec<String>, nm: &String) -> (r: bool)
    ensures
        r == in_names(name_views(names@), nm@),
{
    let ghost ns = name_views(names@);
    let mut i: usize = 0;
    while i < names.len()
        invariant
            ns == name_views(names@),
            i <= ns.len(),
            forall|k: int| 0 <= k < i ==> ns[k] != nm@,
        decreases names@.len() - i,
    {
        if names[i].eq(nm) {
            proof {
                assert(ns[i as int] == nm@);
            }
            return true;
        }
        proof {
            assert(ns[i as int] != nm@);
        }
        i = i + 1;
    }
    proof {
        if in_names(ns, nm@) {
            let w = choose|w: int| 0 <= w < ns.len() && ns[w] == nm@;
            assert(ns[w] != nm@);
            assert(false);
        }
    }
    false
}

/// The set of the group's node indices.
pub open spec fn set_of_group(g: Seq<usize>) -> Set<int> {
    Set::new(|v: int| exists|k: int| 0 <= k < g.len() && (#[trigger] g[k]) as int == v)
}

/// The set of indices whose flag is set.
pub open spec fn set_of_flags(b: Seq<bool>) -> Set<int> {
    Set::new(|v: int| 0 <= v < b.len() && b[v])
}

/// The escaping set only ever holds members of the component.
pub proof fn lemma_esc_in_c(
    rs: Seq<RuleView>,
    names: Seq<Seq<char>>,
    c: Set<int>,
    fuel: nat,
    v: int,
)
    requires
        esc_iter(rs, names, c, fuel).contains(v),
    ensures
        c.contains(v),
    decreases fuel,
{
    if fuel > 0 {
        let e = esc_iter(rs, names, c, (fuel - 1) as nat);
        if e.contains(v) {
            lemma_esc_in_c(rs, names, c, (fuel - 1) as nat, v);
        }
    }
}

/// A vector of `n` cleared flags.
fn vec_false(n: usize) -> (r: Vec<bool>)
    ensures
        r@.len() == n,
        forall|i: int| 0 <= i < n ==> !(#[trigger] r@[i]),
{
    let mut v: Vec<bool> = Vec::new();
    let mut i: usize = 0;
    while i < n
        invariant
            v@.len() == i,
            i <= n,
            forall|k: int| 0 <= k < i ==> !(#[trigger] v@[k]),
        decreases n - i,
    {
        v.push(false);
        i = i + 1;
    }
    v
}

/// A copy of the flags.
fn clone_flags(v: &Vec<bool>) -> (r: Vec<bool>)
    ensures
        r@ == v@,
{
    let mut out: Vec<bool> = Vec::new();
    let mut i: usize = 0;
    while i < v.len()
        invariant
            out@ =~= v@.subrange(0, i as int),
            i <= v@.len(),
        decreases v@.len() - i,
    {
        out.push(v[i]);
        i = i + 1;
    }
    proof {
        assert(out@ =~= v@);
    }
    out
}

/// Whether the value occurs in the vector.
fn contains_usize(v: &Vec<usize>, x: usize) -> (r: bool)
    ensures
        r == set_of_group(v@).contains(x as int),
{
    let mut i: usize = 0;
    while i < v.len()
        invariant
            i <= v@.len(),
            forall|k: int| 0 <= k < i ==> (#[trigger] v@[k]) != x,
        decreases v@.len() - i,
    {
        if v[i] == x {
            proof {
                assert(v@[i as int] as int == x as int);
            }
            return true;
        }
        i = i + 1;
    }
    proof {
        if set_of_group(v@).contains(x as int) {
            let k = choose|k: int| 0 <= k < v@.len() && (#[trigger] v@[k]) as int == x as int;
            assert(v@[k] != x);
            assert(false);
        }
    }
    false
}

} // verus!
