//! Cohomology of alert dependency graphs: H⁰ is the set of connected alert
//! clusters, H¹ the alerts that should have fired (every dependency fired)
//! but did not.

use vstd::prelude::*;
use crate::connectivity::{self, linked, is_leader};
use crate::text::{self, views, strictly_sorted};

verus! {

/// An alert with dependencies. `severity` is a binary64 bit pattern.
#[derive(Debug, Clone)]
pub struct Alert {
    pub id: String,
    pub severity: u64,
    pub dependencies: Vec<String>,
    pub fired: bool,
}

/// An edge in the alert dependency graph. `weight` is a binary64 bit
/// pattern.
#[derive(Debug, Clone)]
pub struct DependencyEdge {
    pub source: String,
    pub target: String,
    pub weight: u64,
}

/// The alert dependency graph; alerts are keyed by their identifiers.
#[derive(Debug, Clone)]
pub struct AlertGraph {
    pub alerts: Vec<Alert>,
    pub edges: Vec<DependencyEdge>,
}

/// Cohomology computation result.
#[derive(Debug, Clone)]
pub struct CohomologyResult {
    /// H⁰ dimension = number of connected components.
    pub h0_dimension: usize,
    /// H¹ dimension = number of missed alert classes.
    pub h1_dimension: usize,
    /// The missed alerts (H¹ representatives).
    pub missed_alerts: Vec<String>,
    /// Connected components (H⁰ representatives).
    pub components: Vec<Vec<String>>,
}

/// Views of a list of string lists.
pub open spec fn nested_views(lists: Seq<Vec<String>>) -> Seq<Seq<Seq<char>>> {
    lists.map_values(|l: Vec<String>| views(l@))
}

impl AlertGraph {
    /// The identifiers of the alerts, in storage order.
    pub open spec fn alert_ids(&self) -> Seq<Seq<char>> {
        self.alerts@.map_values(|a: Alert| a.id@)
    }

    /// No two alerts share an identifier.
    pub open spec fn ids_distinct(&self) -> bool {
        forall|i: int, j: int|
            0 <= i < self.alerts@.len() && 0 <= j < self.alerts@.len() && i != j ==> (
            #[trigger] self.alerts@[i]).id@ != (#[trigger] self.alerts@[j]).id@
    }

    /// The position of the alert with identifier `id` (meaningful when some
    /// alert has it).
    pub open spec fn index_of(&self, id: Seq<char>) -> int {
        choose|i: int| 0 <= i < self.alerts@.len() && (#[trigger] self.alerts@[i]).id@ == id
    }

    /// Some alert has identifier `id`.
    pub open spec fn has_alert(&self, id: Seq<char>) -> bool {
        exists|i: int| 0 <= i < self.alerts@.len() && (#[trigger] self.alerts@[i]).id@ == id
    }

    /// Every edge joins two alerts of the graph.
    pub open spec fn edges_known(&self) -> bool {
        forall|e: int|
            0 <= e < self.edges@.len() ==> self.has_alert((#[trigger] self.edges@[e]).source@)
                && self.has_alert(self.edges@[e].target@)
    }

    /// The edges as pairs of alert positions.
    pub open spec fn index_edges(&self) -> Seq<(int, int)> {
        self.edges@.map_values(
            |e: DependencyEdge| (self.index_of(e.source@), self.index_of(e.target@)),
        )
    }

    /// Alerts `i` and `k` are in the same cluster of the undirected graph.
    pub open spec fn clustered(&self, i: int, k: int) -> bool {
        linked(self.alerts@.len() as int, self.index_edges(), i, k)
    }

    /// Alert `i` is the first alert of its cluster.
    pub open spec fn first_of_cluster(&self, i: int) -> bool {
        is_leader(self.alerts@.len() as int, self.index_edges(), i)
    }

    /// Identifiers of the alerts among the first `m` that share a cluster
    /// with alert `i`, in storage order.
    pub open spec fn cluster_upto(&self, i: int, m: int) -> Seq<Seq<char>>
        decreases m,
    {
        if m <= 0 {
            Seq::empty()
        } else {
            let rest = self.cluster_upto(i, m - 1);
            if self.clustered(i, m - 1) {
                rest.push(self.alerts@[m - 1].id@)
            } else {
                rest
            }
        }
    }

    /// The clusters whose first alert is among the first `m` alerts, in
    /// the order of their first alerts.
    pub open spec fn clusters_upto(&self, m: int) -> Seq<Seq<Seq<char>>>
        decreases m,
    {
        if m <= 0 {
            Seq::empty()
        } else {
            let rest = self.clusters_upto(m - 1);
            if self.first_of_cluster(m - 1) {
                rest.push(self.cluster_upto(m - 1, self.alerts@.len() as int))
            } else {
                rest
            }
        }
    }

    /// Alert `i` lies in some component of H⁰.
    pub open spec fn in_some_component(&self, i: int) -> bool {
        exists|c: int| 0 <= c < self.h0().len() && (#[trigger] self.h0()[c]).contains(self.alerts@[i].id@)
    }

    /// H⁰: every cluster of the graph, each listed in storage order, the
    /// clusters ordered by their first alert.
    pub open spec fn h0(&self) -> Seq<Seq<Seq<char>>> {
        self.clusters_upto(self.alerts@.len() as int)
    }

    /// Alert `a` did not fire although it has dependencies and every one
    /// of them is an alert of the graph that fired.
    pub open spec fn missed(&self, a: Alert) -> bool {
        &&& !a.fired
        &&& a.dependencies@.len() > 0
        &&& forall|d: int|
            0 <= d < a.dependencies@.len() ==> {
                let id = (#[trigger] a.dependencies@[d])@;
                self.has_alert(id) && self.alerts@[self.index_of(id)].fired
            }
    }

    /// H¹: the identifiers of the missed alerts.
    pub open spec fn h1(&self) -> Set<Seq<char>> {
        Set::new(
            |id: Seq<char>|
                exists|i: int|
                    0 <= i < self.alerts@.len() && (#[trigger] self.alerts@[i]).id@ == id
                        && self.missed(self.alerts@[i]),
        )
    }

    /// Every node of the graph: the alert identifiers and the endpoints of
    /// the edges.
    pub open spec fn node_set(&self) -> Set<Seq<char>> {
        self.alert_ids().to_set() + self.edges@.map_values(|e: DependencyEdge| e.source@).to_set()
            + self.edges@.map_values(|e: DependencyEdge| e.target@).to_set()
    }

    /// Weight of the last edge from `s` to `t` among the first `m` edges,
    /// or the bits of +0.0.
    pub open spec fn last_weight(&self, s: Seq<char>, t: Seq<char>, m: int) -> u64
        decreases m,
    {
        if m <= 0 {
            0
        } else if self.edges@[m - 1].source@ == s && self.edges@[m - 1].target@ == t {
            self.edges@[m - 1].weight
        } else {
            self.last_weight(s, t, m - 1)
        }
    }

    /// An empty graph.
    pub fn new() -> (g: Self)
        ensures
            g.alerts@.len() == 0,
            g.edges@.len() == 0,
    {
        AlertGraph { alerts: Vec::new(), edges: Vec::new() }
    }

    /// Position of the alert with identifier `id`, if any.
    fn find(&self, id: &String) -> (r: Option<usize>)
        ensures
            r is None ==> !self.has_alert(id@),
            r matches Some(i) ==> i < self.alerts@.len() && self.alerts@[i as int].id@ == id@
                && forall|j: int| 0 <= j < i ==> (#[trigger] self.alerts@[j]).id@ != id@,
    {
        let mut i: usize = 0;
        while i < self.alerts.len()
            invariant
                i <= self.alerts.len(),
                forall|j: int| 0 <= j < i ==> (#[trigger] self.alerts@[j]).id@ != id@,
            decreases self.alerts.len() - i,
        {
            if self.alerts[i].id == *id {
                return Some(i);
            }
            i = i + 1;
        }
        None
    }

    /// Add an alert; it replaces the alert with the same identifier, if any.
    pub fn add_alert(&mut self, alert: Alert)
        ensures
            final(self).edges == old(self).edges,
            !old(self).has_alert(alert.id@) ==> final(self).alerts@ == old(self).alerts@.push(
                alert,
            ),
            forall|i: int|
                0 <= i < old(self).alerts@.len() && (#[trigger] old(self).alerts@[i]).id@
                    == alert.id@ && (forall|j: int|
                    0 <= j < i ==> old(self).alerts@[j].id@ != alert.id@) ==> final(self).alerts@
                    == old(self).alerts@.update(i, alert),
            old(self).ids_distinct() ==> final(self).ids_distinct(),
    {
        match self.find(&alert.id) {
            Some(i) => {
                let ghost before = self.alerts@;
                self.alerts.set(i, alert);
                proof {
                    assert forall|a: int, b: int|
                        0 <= a < self.alerts@.len() && 0 <= b < self.alerts@.len() && a != b
                            && old(self).ids_distinct() implies (#[trigger] self.alerts@[a]).id@ != (
                    #[trigger] self.alerts@[b]).id@ by {
                        if a != i {
                            assert(before[a] == self.alerts@[a]);
                        }
                        if b != i {
                            assert(before[b] == self.alerts@[b]);
                        }
                    }
                    assert forall|k: int|
                        0 <= k < before.len() && (#[trigger] before[k]).id@ == alert.id@ && (forall|
                            j: int,
                        | 0 <= j < k ==> before[j].id@ != alert.id@) implies self.alerts@
                        == before.update(k, alert) by {
                        if k > i {
                            assert(before[i as int].id@ == alert.id@);
                        }
                    }
                }
            },
            None => {
                let ghost before = self.alerts@;
                self.alerts.push(alert);
                proof {
                    assert forall|a: int, b: int|
                        0 <= a < self.alerts@.len() && 0 <= b < self.alerts@.len() && a != b
                            && old(self).ids_distinct() implies (#[trigger] self.alerts@[a]).id@ != (
                    #[trigger] self.alerts@[b]).id@ by {
                        if a < before.len() {
                            assert(before[a] == self.alerts@[a]);
                        }
                        if b < before.len() {
                            assert(before[b] == self.alerts@[b]);
                        }
                    }
                }
            },
        }
    }

    /// Add an edge.
    pub fn add_edge(&mut self, source: String, target: String, weight: u64)
        ensures
            final(self).alerts == old(self).alerts,
            final(self).edges@ == old(self).edges@.push(DependencyEdge { source, target, weight }),
    {
        self.edges.push(DependencyEdge { source, target, weight });
    }

    /// The edges as pairs of alert positions.
    fn edge_indices(&self) -> (r: Vec<(usize, usize)>)
        requires
            self.ids_distinct(),
            self.edges_known(),
        ensures
            connectivity::edges_within(self.alerts@.len() as int, r@),
            connectivity::int_edges(r@) == self.index_edges(),
    {
        let mut r: Vec<(usize, usize)> = Vec::new();
        let mut e: usize = 0;
        while e < self.edges.len()
            invariant
                e <= self.edges.len(),
                self.ids_distinct(),
                self.edges_known(),
                connectivity::edges_within(self.alerts@.len() as int, r@),
                connectivity::int_edges(r@) == self.index_edges().take(e as int),
            decreases self.edges.len() - e,
        {
            let s = self.find(&self.edges[e].source);
            let t = self.find(&self.edges[e].target);
            proof {
                assert(self.has_alert(self.edges@[e as int].source@));
                assert(self.has_alert(self.edges@[e as int].target@));
            }
            let si = s.unwrap();
            let ti = t.unwrap();
            let ghost prev = r@;
            r.push((si, ti));
            proof {
                let is = self.index_of(self.edges@[e as int].source@);
                let it = self.index_of(self.edges@[e as int].target@);
                assert(self.alerts@[is].id@ == self.edges@[e as int].source@);
                assert(is == si);
                assert(self.alerts@[it].id@ == self.edges@[e as int].target@);
                assert(it == ti);
                assert(connectivity::int_edges(r@) =~= connectivity::int_edges(prev).push(
                    (si as int, ti as int),
                ));
                assert(self.index_edges().take(e + 1) =~= self.index_edges().take(e as int).push(
                    (is, it),
                ));
            }
            e = e + 1;
        }
        proof {
            assert(self.index_edges().take(self.edges@.len() as int) =~= self.index_edges());
        }
        r
    }

    /// H⁰: the connected components of the undirected alert graph. Each
    /// component lists its alert identifiers in storage order, and the
    /// components come in the order of their first alerts.
    pub fn compute_h0(&self) -> (components: Vec<Vec<String>>)
        requires
            self.ids_distinct(),
            self.edges_known(),
        ensures
            nested_views(components@) == self.h0(),
    {
        let n = self.alerts.len();
        let edges = self.edge_indices();
        let labels = connectivity::component_labels(n, &edges);
        let ghost g = self.index_edges();
        let mut components: Vec<Vec<String>> = Vec::new();
        let mut i: usize = 0;
        while i < n
            invariant
                n == self.alerts@.len(),
                g == self.index_edges(),
                i <= n,
                labels.len() == n,
                forall|a: int, b: int|
                    0 <= a < n && 0 <= b < n ==> (labels[a] == labels[b] <==> linked(
                        n as int,
                        g,
                        a,
                        b,
                    )),
                nested_views(components@) == self.clusters_upto(i as int),
            decreases n - i,
        {
            let mut first: bool = true;
            let mut j: usize = 0;
            while j < i
                invariant
                    j <= i,
                    i < n,
                    labels.len() == n,
                    first == (forall|k: int| 0 <= k < j ==> labels[k] != labels[i as int]),
                decreases i - j,
            {
                if labels[j] == labels[i] {
                    first = false;
                }
                j = j + 1;
            }
            proof {
                if first {
                    assert forall|k: int| 0 <= k < i implies !#[trigger] linked(
                        n as int,
                        g,
                        k,
                        i as int,
                    ) by {
                        assert(labels[k] != labels[i as int]);
                    }
                    assert(self.first_of_cluster(i as int));
                } else {
                    let k = choose|k: int| 0 <= k < i && labels[k] == labels[i as int];
                    assert(linked(n as int, g, k, i as int));
                    assert(!self.first_of_cluster(i as int));
                }
            }
            if first {
                let mut comp: Vec<String> = Vec::new();
                let mut k: usize = 0;
                while k < n
                    invariant
                        n == self.alerts@.len(),
                        g == self.index_edges(),
                        k <= n,
                        i < n,
                        labels.len() == n,
                        forall|a: int, b: int|
                            0 <= a < n && 0 <= b < n ==> (labels[a] == labels[b] <==> linked(
                                n as int,
                                g,
                                a,
                                b,
                            )),
                        views(comp@) == self.cluster_upto(i as int, k as int),
                    decreases n - k,
                {
                    let ghost prev = comp@;
                    if labels[k] == labels[i] {
                        comp.push(self.alerts[k].id.clone());
                        proof {
                            assert(views(comp@) =~= views(prev).push(self.alerts@[k as int].id@));
                        }
                    }
                    k = k + 1;
                }
                let ghost prev = components@;
                components.push(comp);
                proof {
                    assert(nested_views(components@) =~= nested_views(prev).push(views(comp@)));
                }
            }
            i = i + 1;
        }
        components
    }

    /// Whether the alert is missed: it did not fire although it has
    /// dependencies and every one of them is an alert that fired.
    fn is_missed(&self, alert: &Alert) -> (r: bool)
        requires
            self.ids_distinct(),
        ensures
            r == self.missed(*alert),
    {
        if alert.fired || alert.dependencies.len() == 0 {
            return false;
        }
        let mut d: usize = 0;
        while d < alert.dependencies.len()
            invariant
                d <= alert.dependencies.len(),
                self.ids_distinct(),
                forall|c: int|
                    0 <= c < d ==> {
                        let id = (#[trigger] alert.dependencies@[c])@;
                        self.has_alert(id) && self.alerts@[self.index_of(id)].fired
                    },
            decreases alert.dependencies.len() - d,
        {
            match self.find(&alert.dependencies[d]) {
                Some(i) => {
                    proof {
                        let id = alert.dependencies@[d as int]@;
                        assert(self.alerts@[i as int].id@ == id);
                        assert(self.index_of(id) == i);
                    }
                    if !self.alerts[i].fired {
                        return false;
                    }
                },
                None => {
                    return false;
                },
            }
            d = d + 1;
        }
        true
    }

    /// H¹: the identifiers of the missed alerts, sorted.
    pub fn compute_h1(&self) -> (missed: Vec<String>)
        requires
            self.ids_distinct(),
        ensures
            strictly_sorted(views(missed@)),
            views(missed@).to_set() == self.h1(),
    {
        let mut missed: Vec<String> = Vec::new();
        let mut i: usize = 0;
        while i < self.alerts.len()
            invariant
                i <= self.alerts.len(),
                self.ids_distinct(),
                strictly_sorted(views(missed@)),
                forall|id: Seq<char>|
                    views(missed@).to_set().contains(id) <==> exists|k: int|
                        0 <= k < i && (#[trigger] self.alerts@[k]).id@ == id && self.missed(
                            self.alerts@[k],
                        ),
            decreases self.alerts.len() - i,
        {
            let ghost prev = views(missed@).to_set();
            if self.is_missed(&self.alerts[i]) {
                text::insert_sorted(&mut missed, self.alerts[i].id.clone());
            }
            proof {
                assert forall|id: Seq<char>|
                    views(missed@).to_set().contains(id) <==> exists|k: int|
                        0 <= k < i + 1 && (#[trigger] self.alerts@[k]).id@ == id && self.missed(
                            self.alerts@[k],
                        ) by {
                    if exists|k: int|
                        0 <= k < i + 1 && (#[trigger] self.alerts@[k]).id@ == id && self.missed(
                            self.alerts@[k],
                        ) {
                        let k = choose|k: int|
                            0 <= k < i + 1 && (#[trigger] self.alerts@[k]).id@ == id && self.missed(
                                self.alerts@[k],
                            );
                        if k < i {
                            assert(prev.contains(id));
                        }
                    }
                }
            }
            i = i + 1;
        }
        proof {
            assert(views(missed@).to_set() =~= self.h1());
        }
        missed
    }

    /// Position of `id` in a list of strings.
    fn position_in(list: &Vec<String>, id: &String) -> (r: Option<usize>)
        ensures
            r is None ==> !views(list@).contains(id@),
            r matches Some(i) ==> i < list@.len() && list@[i as int]@ == id@,
    {
        let mut i: usize = 0;
        while i < list.len()
            invariant
                i <= list.len(),
                forall|j: int| 0 <= j < i ==> (#[trigger] list@[j])@ != id@,
            decreases list.len() - i,
        {
            if list[i] == *id {
                return Some(i);
            }
            i = i + 1;
        }
        None
    }

    /// The weighted adjacency matrix of the directed graph. Rows and
    /// columns follow the sorted list of every node (alert identifiers and
    /// edge endpoints); entry `(i, j)` is the weight of the last edge from
    /// node `i` to node `j`, or +0.0 (bits 0) when there is none.
    pub fn adjacency_matrix(&self) -> (adj: Vec<Vec<u64>>)
        ensures
            exists|nodes: Seq<Seq<char>>|
                {
                    &&& strictly_sorted(nodes)
                    &&& nodes.to_set() == self.node_set()
                    &&& adj@.len() == nodes.len()
                    &&& forall|i: int|
                        0 <= i < nodes.len() ==> (#[trigger] adj@[i])@.len() == nodes.len()
                    &&& forall|i: int, j: int|
                        0 <= i < nodes.len() && 0 <= j < nodes.len() ==> #[trigger] adj@[i]@[j]
                            == self.last_weight(nodes[i], nodes[j], self.edges@.len() as int)
                },
    {
        let mut nodes: Vec<String> = Vec::new();
        let mut i: usize = 0;
        while i < self.alerts.len()
            invariant
                i <= self.alerts.len(),
                strictly_sorted(views(nodes@)),
                views(nodes@).to_set() == self.alert_ids().take(i as int).to_set(),
            decreases self.alerts.len() - i,
        {
            text::insert_sorted(&mut nodes, self.alerts[i].id.clone());
            proof {
                assert(self.alert_ids().take(i + 1) =~= self.alert_ids().take(i as int).push(
                    self.alerts@[i as int].id@,
                ));
                self.alert_ids().take(i as int).lemma_push_to_set_commute(self.alerts@[i as int].id@);
            }
            i = i + 1;
        }
        proof {
            assert(self.alert_ids().take(self.alerts@.len() as int) =~= self.alert_ids());
        }
        let ghost sources = self.edges@.map_values(|e: DependencyEdge| e.source@);
        let ghost targets = self.edges@.map_values(|e: DependencyEdge| e.target@);
        let mut e: usize = 0;
        while e < self.edges.len()
            invariant
                e <= self.edges.len(),
                sources == self.edges@.map_values(|e: DependencyEdge| e.source@),
                targets == self.edges@.map_values(|e: DependencyEdge| e.target@),
                strictly_sorted(views(nodes@)),
                views(nodes@).to_set() == self.alert_ids().to_set() + sources.take(e as int).to_set()
                    + targets.take(e as int).to_set(),
            decreases self.edges.len() - e,
        {
            text::insert_sorted(&mut nodes, self.edges[e].source.clone());
            text::insert_sorted(&mut nodes, self.edges[e].target.clone());
            proof {
                assert(sources.take(e + 1) =~= sources.take(e as int).push(self.edges@[e as int].source@));
                assert(targets.take(e + 1) =~= targets.take(e as int).push(self.edges@[e as int].target@));
                sources.take(e as int).lemma_push_to_set_commute(self.edges@[e as int].source@);
                targets.take(e as int).lemma_push_to_set_commute(self.edges@[e as int].target@);
                assert(views(nodes@).to_set() =~= self.alert_ids().to_set() + sources.take(e + 1).to_set()
                    + targets.take(e + 1).to_set());
            }
            e = e + 1;
        }
        proof {
            assert(sources.take(self.edges@.len() as int) =~= sources);
            assert(targets.take(self.edges@.len() as int) =~= targets);
        }
        let n = nodes.len();
        let ghost nv = views(nodes@);
        let mut adj: Vec<Vec<u64>> = Vec::new();
        let mut r: usize = 0;
        while r < n
            invariant
                r <= n,
                adj@.len() == r,
                forall|a: int| 0 <= a < r ==> (#[trigger] adj@[a])@ == Seq::new(n as nat, |_j: int| 0u64),
            decreases n - r,
        {
            let mut row: Vec<u64> = Vec::new();
            let mut c: usize = 0;
            while c < n
                invariant
                    c <= n,
                    row@ == Seq::new(c as nat, |_j: int| 0u64),
                decreases n - c,
            {
                row.push(0);
                proof {
                    assert(row@ =~= Seq::new((c + 1) as nat, |_j: int| 0u64));
                }
                c = c + 1;
            }
            adj.push(row);
            r = r + 1;
        }
        let mut e: usize = 0;
        while e < self.edges.len()
            invariant
                e <= self.edges.len(),
                n == nodes@.len(),
                nv == views(nodes@),
                strictly_sorted(nv),
                nv.to_set() == self.node_set(),
                adj@.len() == n,
                forall|a: int| 0 <= a < n ==> (#[trigger] adj@[a])@.len() == n,
                forall|a: int, b: int|
                    0 <= a < n && 0 <= b < n ==> #[trigger] adj@[a]@[b] == self.last_weight(
                        nv[a],
                        nv[b],
                        e as int,
                    ),
            decreases self.edges.len() - e,
        {
            let s = Self::position_in(&nodes, &self.edges[e].source);
            let t = Self::position_in(&nodes, &self.edges[e].target);
            proof {
                let ss = self.edges@[e as int].source@;
                let tt = self.edges@[e as int].target@;
                assert(self.edges@.map_values(|e: DependencyEdge| e.source@)[e as int] == ss);
                assert(self.node_set().contains(ss));
                assert(self.edges@.map_values(|e: DependencyEdge| e.target@)[e as int] == tt);
                assert(self.node_set().contains(tt));
            }
            if let (Some(si), Some(ti)) = (s, t) {
                let ghost before = adj@;
                let mut row: Vec<u64> = Vec::new();
                std::mem::swap(&mut row, &mut adj[si]);
                row.set(ti, self.edges[e].weight);
                std::mem::swap(&mut row, &mut adj[si]);
                proof {
                    assert forall|a: int, b: int|
                        0 <= a < n && 0 <= b < n implies #[trigger] adj@[a]@[b] == self.last_weight(
                        nv[a],
                        nv[b],
                        e + 1,
                    ) by {
                        if a != si {
                            assert(adj@[a] == before[a]);
                        }
                        if nv[a] == nv[si as int] && a != si {
                            text::lemma_lt_irreflexive(nv[a]);
                            if a < si {
                                assert(text::seq_lt(nv[a], nv[si as int]));
                            } else {
                                assert(text::seq_lt(nv[si as int], nv[a]));
                            }
                        }
                        if nv[b] == nv[ti as int] && b != ti {
                            text::lemma_lt_irreflexive(nv[b]);
                            if b < ti {
                                assert(text::seq_lt(nv[b], nv[ti as int]));
                            } else {
                                assert(text::seq_lt(nv[ti as int], nv[b]));
                            }
                        }
                    }
                }
            }
            e = e + 1;
        }
        adj
    }

    /// Number of alerts.
    pub fn len(&self) -> (n: usize)
        ensures
            n == self.alerts@.len(),
    {
        self.alerts.len()
    }

    /// Whether the graph has no alerts.
    pub fn is_empty(&self) -> (r: bool)
        ensures
            r == (self.alerts@.len() == 0),
    {
        self.alerts.len() == 0
    }
}

impl Default for AlertGraph {
    fn default() -> (g: Self)
        ensures
            g.alerts@.len() == 0,
            g.edges@.len() == 0,
    {
        AlertGraph::new()
    }
}

/// `cluster_upto(i, m)` holds the identifiers of exactly the alerts below
/// `m` clustered with `i`.
proof fn lemma_cluster_members(g: AlertGraph, i: int, m: int, x: Seq<char>)
    requires
        0 <= m <= g.alerts@.len(),
    ensures
        g.cluster_upto(i, m).contains(x) <==> exists|k: int|
            0 <= k < m && g.clustered(i, k) && (#[trigger] g.alerts@[k]).id@ == x,
    decreases m,
{
    if m > 0 {
        lemma_cluster_members(g, i, m - 1, x);
        let rest = g.cluster_upto(i, m - 1);
        if g.clustered(i, m - 1) {
            let full = rest.push(g.alerts@[m - 1].id@);
            if full.contains(x) {
                let p = choose|p: int| 0 <= p < full.len() && full[p] == x;
                if p < rest.len() {
                    assert(rest[p] == x);
                }
            }
            if rest.contains(x) {
                let p = choose|p: int| 0 <= p < rest.len() && rest[p] == x;
                assert(full[p] == x);
            }
            if exists|k: int| 0 <= k < m && g.clustered(i, k) && (#[trigger] g.alerts@[k]).id@ == x {
                let k = choose|k: int| 0 <= k < m && g.clustered(i, k) && (#[trigger] g.alerts@[k]).id@ == x;
                if k == m - 1 {
                    assert(full[rest.len() as int] == x);
                }
            }
        } else {
            if exists|k: int| 0 <= k < m && g.clustered(i, k) && (#[trigger] g.alerts@[k]).id@ == x {
                let k = choose|k: int| 0 <= k < m && g.clustered(i, k) && (#[trigger] g.alerts@[k]).id@ == x;
                assert(k != m - 1);
            }
        }
    }
}

/// The first alerts of clusters among the first `m` alerts, in order.
pub open spec fn firsts_upto(g: AlertGraph, m: int) -> Seq<int>
    decreases m,
{
    if m <= 0 {
        Seq::empty()
    } else if g.first_of_cluster(m - 1) {
        firsts_upto(g, m - 1).push(m - 1)
    } else {
        firsts_upto(g, m - 1)
    }
}

/// The components listed for the first `m` alerts are the clusters of the
/// first alerts of clusters below `m`, in order.
proof fn lemma_clusters_listed(g: AlertGraph, m: int)
    requires
        0 <= m <= g.alerts@.len(),
    ensures
        g.clusters_upto(m).len() == firsts_upto(g, m).len(),
        forall|c: int|
            0 <= c < firsts_upto(g, m).len() ==> {
                let l = #[trigger] firsts_upto(g, m)[c];
                &&& 0 <= l < m
                &&& g.first_of_cluster(l)
                &&& g.clusters_upto(m)[c] == g.cluster_upto(l, g.alerts@.len() as int)
            },
        forall|l: int| 0 <= l < m && #[trigger] g.first_of_cluster(l) ==> firsts_upto(g, m).contains(l),
    decreases m,
{
    if m > 0 {
        lemma_clusters_listed(g, m - 1);
        let f = firsts_upto(g, m - 1);
        if g.first_of_cluster(m - 1) {
            assert(firsts_upto(g, m) == f.push(m - 1));
            assert forall|l: int| 0 <= l < m && #[trigger] g.first_of_cluster(l) implies firsts_upto(
                g,
                m,
            ).contains(l) by {
                if l < m - 1 {
                    let c = choose|c: int| 0 <= c < f.len() && f[c] == l;
                    assert(f.push(m - 1)[c] == l);
                } else {
                    assert(f.push(m - 1)[f.len() as int] == l);
                }
            }
        }
    }
}

/// Every alert is clustered with the first alert of its cluster.
proof fn lemma_has_first(g: AlertGraph, i: int)
    requires
        0 <= i < g.alerts@.len(),
    ensures
        exists|l: int| 0 <= l <= i && g.first_of_cluster(l) && #[trigger] g.clustered(l, i),
    decreases i,
{
    let n = g.alerts@.len() as int;
    let ge = g.index_edges();
    if g.first_of_cluster(i) {
        connectivity::lemma_linked_refl(n, ge, i);
        assert(g.clustered(i, i));
    } else {
        let j = choose|j: int| 0 <= j < i && #[trigger] linked(n, ge, j, i);
        lemma_has_first(g, j);
        let l = choose|l: int| 0 <= l <= j && g.first_of_cluster(l) && #[trigger] g.clustered(l, j);
        connectivity::lemma_linked_trans(n, ge, l, j, i);
        assert(g.clustered(l, i));
    }
}

/// Every alert lies in the component of the first alert of its cluster.
proof fn lemma_in_some_component(g: AlertGraph, i: int)
    requires
        g.ids_distinct(),
        0 <= i < g.alerts@.len(),
    ensures
        g.in_some_component(i),
{
    let n = g.alerts@.len() as int;
    lemma_clusters_listed(g, n);
    lemma_has_first(g, i);
    let l = choose|l: int| 0 <= l <= i && g.first_of_cluster(l) && #[trigger] g.clustered(l, i);
    assert(firsts_upto(g, n).contains(l));
    let c = choose|c: int| 0 <= c < firsts_upto(g, n).len() && firsts_upto(g, n)[c] == l;
    lemma_cluster_members(g, l, n, g.alerts@[i].id@);
    assert(g.h0()[c].contains(g.alerts@[i].id@));
}

/// Two alerts share a component exactly when they are connected.
proof fn lemma_same_component(g: AlertGraph, i: int, k: int)
    requires
        g.ids_distinct(),
        0 <= i < g.alerts@.len(),
        0 <= k < g.alerts@.len(),
    ensures
        g.clustered(i, k) <==> exists|c: int|
            0 <= c < g.h0().len() && (#[trigger] g.h0()[c]).contains(g.alerts@[i].id@)
                && g.h0()[c].contains(g.alerts@[k].id@),
{
    let n = g.alerts@.len() as int;
    let ge = g.index_edges();
    lemma_clusters_listed(g, n);

        if g.clustered(i, k) {
            lemma_has_first(g, i);
            let l = choose|l: int| 0 <= l <= i && g.first_of_cluster(l) && #[trigger] g.clustered(l, i);
            connectivity::lemma_linked_trans(n, ge, l, i, k);
            let c = choose|c: int| 0 <= c < firsts_upto(g, n).len() && firsts_upto(g, n)[c] == l;
            lemma_cluster_members(g, l, n, g.alerts@[i].id@);
            lemma_cluster_members(g, l, n, g.alerts@[k].id@);
            assert(g.h0()[c].contains(g.alerts@[i].id@) && g.h0()[c].contains(g.alerts@[k].id@));
        }
        if exists|c: int|
            0 <= c < g.h0().len() && (#[trigger] g.h0()[c]).contains(g.alerts@[i].id@) && g.h0()[c].contains(
                g.alerts@[k].id@,
            ) {
            let c = choose|c: int|
                0 <= c < g.h0().len() && (#[trigger] g.h0()[c]).contains(g.alerts@[i].id@) && g.h0()[c].contains(
                    g.alerts@[k].id@,
                );
            let l = firsts_upto(g, n)[c];
            lemma_cluster_members(g, l, n, g.alerts@[i].id@);
            lemma_cluster_members(g, l, n, g.alerts@[k].id@);
            let a = choose|a: int| 0 <= a < n && g.clustered(l, a) && (#[trigger] g.alerts@[a]).id@ == g.alerts@[i].id@;
            let b = choose|b: int| 0 <= b < n && g.clustered(l, b) && (#[trigger] g.alerts@[b]).id@ == g.alerts@[k].id@;
            assert(a == i);
            assert(b == k);
            connectivity::lemma_linked_sym(n, ge, l, i);
            connectivity::lemma_linked_trans(n, ge, i, l, k);
        }
    }

/// The first alerts of clusters come in increasing order.
proof fn lemma_firsts_increasing(g: AlertGraph, m: int)
    requires
        0 <= m <= g.alerts@.len(),
    ensures
        forall|a: int, b: int|
            0 <= a < b < firsts_upto(g, m).len() ==> #[trigger] firsts_upto(g, m)[a]
                < #[trigger] firsts_upto(g, m)[b],
    decreases m,
{
    if m > 0 {
        lemma_firsts_increasing(g, m - 1);
        lemma_clusters_listed(g, m - 1);
        let f = firsts_upto(g, m - 1);
        if g.first_of_cluster(m - 1) {
            assert forall|a: int, b: int|
                0 <= a < b < f.push(m - 1).len() implies #[trigger] f.push(m - 1)[a]
                    < #[trigger] f.push(m - 1)[b] by {
                assert(f.push(m - 1)[a] == f[a]);
                if b < f.len() {
                    assert(f.push(m - 1)[b] == f[b]);
                }
            }
        }
    }
}

/// No alert identifier lies in two components.
proof fn lemma_components_disjoint(g: AlertGraph, c1: int, c2: int, x: Seq<char>)
    requires
        g.ids_distinct(),
        0 <= c1 < c2 < g.h0().len(),
        g.h0()[c1].contains(x),
    ensures
        !g.h0()[c2].contains(x),
{
    let n = g.alerts@.len() as int;
    let ge = g.index_edges();
    lemma_clusters_listed(g, n);
    lemma_firsts_increasing(g, n);
    let l1 = firsts_upto(g, n)[c1];
    let l2 = firsts_upto(g, n)[c2];
    assert(l1 < l2);
    if g.h0()[c2].contains(x) {
        lemma_cluster_members(g, l1, n, x);
        lemma_cluster_members(g, l2, n, x);
        let a = choose|a: int| 0 <= a < n && g.clustered(l1, a) && (#[trigger] g.alerts@[a]).id@ == x;
        let b = choose|b: int| 0 <= b < n && g.clustered(l2, b) && (#[trigger] g.alerts@[b]).id@ == x;
        assert(a == b);
        connectivity::lemma_linked_sym(n, ge, l2, a);
        connectivity::lemma_linked_trans(n, ge, l1, a, l2);
        assert(g.first_of_cluster(l2));
        assert(!linked(n, ge, l1, l2));
    }
}

/// H⁰ partitions the alerts into their clusters: every component is
/// nonempty, every alert lies in some component, no identifier lies in two
/// components, and two alerts lie in a common component exactly when they
/// are connected.
pub proof fn law_h0_partition(g: AlertGraph)
    requires
        g.ids_distinct(),
    ensures
        forall|c: int| 0 <= c < g.h0().len() ==> (#[trigger] g.h0()[c]).len() > 0,
        forall|i: int|
            0 <= i < g.alerts@.len() ==> #[trigger] g.in_some_component(i),
        forall|c1: int, c2: int, x: Seq<char>|
            #![trigger g.h0()[c1].contains(x), g.h0()[c2].contains(x)]
            0 <= c1 < g.h0().len() && 0 <= c2 < g.h0().len() && c1 != c2 && g.h0()[c1].contains(x)
                ==> !g.h0()[c2].contains(x),
        forall|i: int, k: int|
            #![trigger g.clustered(i, k)]
            0 <= i < g.alerts@.len() && 0 <= k < g.alerts@.len() ==> (g.clustered(i, k) <==> exists|
                c: int,
            |
                0 <= c < g.h0().len() && (#[trigger] g.h0()[c]).contains(g.alerts@[i].id@)
                    && g.h0()[c].contains(g.alerts@[k].id@)),
{
    let n = g.alerts@.len() as int;
    let ge = g.index_edges();
    lemma_clusters_listed(g, n);
    assert forall|c: int| 0 <= c < g.h0().len() implies (#[trigger] g.h0()[c]).len() > 0 by {
        let l = firsts_upto(g, n)[c];
        connectivity::lemma_linked_refl(n, ge, l);
        lemma_cluster_members(g, l, n, g.alerts@[l].id@);
        assert(g.cluster_upto(l, n).contains(g.alerts@[l].id@));
    }
    assert forall|i: int| 0 <= i < g.alerts@.len() implies #[trigger] g.in_some_component(i) by {
        lemma_in_some_component(g, i);
    }
    assert forall|c1: int, c2: int, x: Seq<char>|
        0 <= c1 < g.h0().len() && 0 <= c2 < g.h0().len() && c1 != c2 && #[trigger] g.h0()[c1].contains(
            x,
        ) implies !#[trigger] g.h0()[c2].contains(x) by {
        if c1 < c2 {
            lemma_components_disjoint(g, c1, c2, x);
        } else if g.h0()[c2].contains(x) {
            lemma_components_disjoint(g, c2, c1, x);
        }
    }
    assert forall|i: int, k: int|
        #![trigger g.clustered(i, k)]
        0 <= i < g.alerts@.len() && 0 <= k < g.alerts@.len() implies (g.clustered(i, k) <==> exists|
            c: int,
        |
            0 <= c < g.h0().len() && (#[trigger] g.h0()[c]).contains(g.alerts@[i].id@)
                && g.h0()[c].contains(g.alerts@[k].id@)) by {
        lemma_same_component(g, i, k);
    }
}

/// Compute H⁰ and H¹ of the alert dependency graph.
pub fn compute_cohomology(graph: &AlertGraph) -> (r: CohomologyResult)
    requires
        graph.ids_distinct(),
        graph.edges_known(),
    ensures
        nested_views(r.components@) == graph.h0(),
        strictly_sorted(views(r.missed_alerts@)),
        views(r.missed_alerts@).to_set() == graph.h1(),
        r.h0_dimension == r.components@.len(),
        r.h1_dimension == r.missed_alerts@.len(),
{
    let components = graph.compute_h0();
    let missed = graph.compute_h1();
    let h0_dim = components.len();
    let h1_dim = missed.len();
    CohomologyResult {
        h0_dimension: h0_dim,
        h1_dimension: h1_dim,
        missed_alerts: missed,
        components,
    }
}

/// The adjacency entry from `s` to `t` is directed: it is +0.0 when none
/// of the first `m` edges goes from `s` to `t` (whatever edges go from `t`
/// to `s`), and otherwise the weight of the last edge from `s` to `t`.
pub proof fn law_adjacency_directed(g: AlertGraph, s: Seq<char>, t: Seq<char>, m: int)
    requires
        0 <= m <= g.edges@.len(),
    ensures
        (forall|k: int|
            0 <= k < m ==> !((#[trigger] g.edges@[k]).source@ == s && g.edges@[k].target@ == t))
            ==> g.last_weight(s, t, m) == 0,
        forall|k: int|
            0 <= k < m && (#[trigger] g.edges@[k]).source@ == s && g.edges@[k].target@ == t && (forall|
                l: int,
            | k < l < m ==> !(g.edges@[l].source@ == s && g.edges@[l].target@ == t)) ==> g.last_weight(
                s,
                t,
                m,
            ) == g.edges@[k].weight,
    decreases m,
{
    if m > 0 {
        law_adjacency_directed(g, s, t, m - 1);
    }
}

/// Some alert of the graph with identifier `id` fired.
pub open spec fn fired_alert(g: AlertGraph, id: Seq<char>) -> bool {
    exists|j: int| 0 <= j < g.alerts@.len() && (#[trigger] g.alerts@[j]).id@ == id && g.alerts@[j].fired
}

/// An alert lies in H¹ exactly when it did not fire, it has dependencies,
/// and each dependency names an alert of the graph that fired.
pub proof fn law_h1_missed(g: AlertGraph, i: int)
    requires
        g.ids_distinct(),
        0 <= i < g.alerts@.len(),
    ensures
        g.h1().contains(g.alerts@[i].id@) <==> (!g.alerts@[i].fired && g.alerts@[i].dependencies@.len()
            > 0 && forall|d: int|
            0 <= d < g.alerts@[i].dependencies@.len() ==> fired_alert(
                g,
                (#[trigger] g.alerts@[i].dependencies@[d])@,
            )),
{
    let deps = g.alerts@[i].dependencies@;
    assert forall|d: int| 0 <= d < deps.len() implies (fired_alert(g, (#[trigger] deps[d])@) <==> (g.has_alert(
        deps[d]@,
    ) && g.alerts@[g.index_of(deps[d]@)].fired)) by {
        let id = deps[d]@;
        if fired_alert(g, id) {
            let j = choose|j: int| 0 <= j < g.alerts@.len() && (#[trigger] g.alerts@[j]).id@ == id && g.alerts@[j].fired;
            assert(g.has_alert(id));
            let k = g.index_of(id);
            assert(k == j);
        }
        if g.has_alert(id) && g.alerts@[g.index_of(id)].fired {
            let k = g.index_of(id);
            assert(g.alerts@[k].id@ == id);
        }
    }
    if g.h1().contains(g.alerts@[i].id@) {
        let k = choose|k: int|
            0 <= k < g.alerts@.len() && (#[trigger] g.alerts@[k]).id@ == g.alerts@[i].id@ && g.missed(
                g.alerts@[k],
            );
        assert(k == i);
    }
    if !g.alerts@[i].fired && deps.len() > 0 && forall|d: int|
        0 <= d < deps.len() ==> fired_alert(g, (#[trigger] deps[d])@) {
        assert(g.missed(g.alerts@[i]));
    }
}

} // verus!
