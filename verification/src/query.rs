use vstd::prelude::*;

use crate::WikiUrl;
use crate::cache::DbCache;

verus! {

/// One in-progress search path, from the origin to the path's current
/// frontier node, in order of traversal.
pub struct QueueRequest(pub Vec<WikiUrl>);

impl QueueRequest {
    /// Depth of the path: the number of edges traversed from the origin.
    pub fn depth(&self) -> (d: usize)
        requires
            self.0.len() >= 1,
        ensures
            d == path_depth(self.0.deep_view()),
    {
        self.0.len() - 1
    }
}

/// Depth of a path given as a sequence of page identifiers.
pub open spec fn path_depth(p: Seq<Seq<char>>) -> int {
    p.len() - 1
}

/// The counter value after one more expansion: it sticks at the machine
/// limit instead of wrapping.
pub open spec fn inc_counter(c: u64) -> u64 {
    if c < u64::MAX {
        (c + 1) as u64
    } else {
        c
    }
}

/// The set of edges leading from `from` to each member of `links`.
pub open spec fn link_edges(from: Seq<char>, links: Seq<Seq<char>>) -> Set<
    (Seq<char>, Seq<char>),
> {
    Set::new(|e: (Seq<char>, Seq<char>)| e.0 == from && links.contains(e.1))
}

/// The paths one expansion adds to the frontier: the current path
/// extended by each link in order, skipping links already enqueued,
/// stopping just before the first hit of the target.
pub open spec fn offered_paths(
    cur: Seq<Seq<char>>,
    links: Seq<Seq<char>>,
    visited: Seq<Seq<char>>,
    target: Seq<char>,
) -> Seq<Seq<Seq<char>>>
    decreases links.len(),
{
    if links.len() == 0 {
        Seq::empty()
    } else if visited.contains(links[0]) {
        offered_paths(cur, links.drop_first(), visited, target)
    } else if links[0] == target {
        Seq::empty()
    } else {
        seq![cur.push(links[0])] + offered_paths(
            cur,
            links.drop_first(),
            visited.push(links[0]),
            target,
        )
    }
}

/// The pages the same expansion adds to the visited set, in the same
/// order as their paths join the frontier.
pub open spec fn offered_visits(
    links: Seq<Seq<char>>,
    visited: Seq<Seq<char>>,
    target: Seq<char>,
) -> Seq<Seq<char>>
    decreases links.len(),
{
    if links.len() == 0 {
        Seq::empty()
    } else if visited.contains(links[0]) {
        offered_visits(links.drop_first(), visited, target)
    } else if links[0] == target {
        Seq::empty()
    } else {
        seq![links[0]] + offered_visits(links.drop_first(), visited.push(links[0]), target)
    }
}

/// After its head, the path never names `target`.
pub open spec fn tail_avoids(p: Seq<Seq<char>>, target: Seq<char>) -> bool {
    forall|i: int| 1 <= i < p.len() ==> p[i] != target
}

/// What one turn of the search asks its driver to do next.
pub enum SearchStep {
    /// Resolve the outbound links of this page, then hand them back
    /// through `offer_links`.
    Expand(WikiUrl),
    /// The popped path was deeper than the bound and was discarded; pop
    /// again.
    Pruned,
    /// The frontier is empty: no path was found; the payload is the number
    /// of pages checked.
    Exhausted(u64),
    /// A stop request was observed; the payload is the number of pages
    /// checked so far.
    Cancelled(u64),
}

/// Why a search run ended without a path.
#[derive(Clone, Copy, Debug, PartialEq, Eq, Structural)]
pub enum SearchError {
    /// Resolving a page's outbound links failed; the run was aborted at
    /// once, without retry.
    FetchFailed,
    /// The frontier was exhausted within the depth bound; carries the
    /// number of pages checked.
    NotFound(u64),
    /// A stop request was observed; carries the number of pages checked
    /// so far.
    Cancelled(u64),
}

/// The state of one depth-bounded, cooperatively cancellable search run:
/// a frontier of candidate paths expanded in nondecreasing depth order, the
/// set of pages already enqueued, and the expansion counter. The ghost
/// fields record every edge ever offered and the depth of every expansion.
pub struct Search {
    origin: WikiUrl,
    target: WikiUrl,
    max_depth: usize,
    frontier: Vec<QueueRequest>,
    visited: Vec<WikiUrl>,
    counter: u64,
    current: Option<QueueRequest>,
    edges: Ghost<Set<(Seq<char>, Seq<char>)>>,
    expanded: Ghost<Seq<int>>,
}

impl Search {
    /// The page the search started from.
    pub closed spec fn origin_of(self) -> Seq<char> {
        self.origin@
    }

    /// The page the search is looking for.
    pub closed spec fn target_of(self) -> Seq<char> {
        self.target@
    }

    /// The inclusive depth bound.
    pub closed spec fn bound(self) -> int {
        self.max_depth as int
    }

    /// The paths awaiting expansion.
    pub closed spec fn frontier_view(self) -> Seq<Seq<Seq<char>>> {
        self.frontier@.map_values(|q: QueueRequest| q.0.deep_view())
    }

    /// The pages already enqueued as candidates in this run.
    pub closed spec fn visited_view(self) -> Seq<Seq<char>> {
        self.visited.deep_view()
    }

    /// How many pages have been expanded so far.
    pub closed spec fn counter(self) -> u64 {
        self.counter
    }

    /// The path popped for expansion and not yet answered, if any.
    pub closed spec fn current_path(self) -> Option<Seq<Seq<char>>> {
        match self.current {
            Some(q) => Some(q.0.deep_view()),
            None => None,
        }
    }

    /// Every edge that was ever offered to this run.
    pub closed spec fn edge_set(self) -> Set<(Seq<char>, Seq<char>)> {
        self.edges@
    }

    /// The depths of the expanded paths, in expansion order.
    pub closed spec fn expanded_depths(self) -> Seq<int> {
        self.expanded@
    }

    /// A path the search may hold: nonempty, starting at the origin, every
    /// step along an offered edge.
    pub open spec fn path_ok(self, p: Seq<Seq<char>>) -> bool {
        &&& p.len() >= 1
        &&& p[0] == self.origin_of()
        &&& forall|k: int|
            0 <= k < p.len() - 1 ==> #[trigger] self.edge_set().contains((p[k], p[k + 1]))
    }

    /// The depth below which nothing will be expanded any more: the depth
    /// of the latest expansion.
    pub closed spec fn floor(self) -> int {
        if self.expanded@.len() == 0 {
            0
        } else {
            self.expanded@.last()
        }
    }

    /// The search invariant.
    pub closed spec fn wf(self) -> bool {
        &&& forall|j: int|
            0 <= j < self.frontier_view().len() ==> self.path_ok(
                #[trigger] self.frontier_view()[j],
            ) && path_depth(self.frontier_view()[j]) >= self.floor() && tail_avoids(
                self.frontier_view()[j],
                self.target_of(),
            )
        &&& forall|k: int|
            0 <= k < self.visited_view().len() ==> #[trigger] self.visited_view()[k]
                != self.target_of()
        &&& forall|n: int| 0 <= n < self.expanded@.len() ==> #[trigger] self.expanded@[n] >= 0
        &&& forall|n1: int, n2: int|
            0 <= n1 <= n2 < self.expanded@.len() ==> #[trigger] self.expanded@[n1]
                <= #[trigger] self.expanded@[n2]
        &&& match self.current {
            Some(q) => self.path_ok(q.0.deep_view()) && path_depth(q.0.deep_view())
                == self.floor() && path_depth(q.0.deep_view()) <= self.bound() && tail_avoids(
                q.0.deep_view(),
                self.target_of(),
            ),
            None => true,
        }
    }

    /// Start a run: the frontier holds the single path `[origin]`, nothing
    /// is visited, nothing was expanded.
    pub fn new(origin: WikiUrl, target: WikiUrl, max_depth: usize) -> (s: Search)
        ensures
            s.wf(),
            s.origin_of() == origin@,
            s.target_of() == target@,
            s.bound() == max_depth as int,
            s.counter() == 0,
            s.current_path() is None,
            s.frontier_view() =~= seq![seq![origin@]],
            s.visited_view() =~= Seq::<Seq<char>>::empty(),
            s.edge_set() =~= Set::<(Seq<char>, Seq<char>)>::empty(),
            s.expanded_depths() =~= Seq::<int>::empty(),
    {
        let mut frontier: Vec<QueueRequest> = Vec::new();
        let mut first: Vec<WikiUrl> = Vec::new();
        first.push(origin.clone());
        frontier.push(QueueRequest(first));
        let s = Search {
            origin,
            target,
            max_depth,
            frontier,
            visited: Vec::new(),
            counter: 0,
            current: None,
            edges: Ghost(Set::empty()),
            expanded: Ghost(Seq::empty()),
        };
        proof {
            assert(s.frontier_view().len() == 1);
            assert(s.frontier_view()[0] =~= seq![origin@]);
            assert(s.frontier_view() =~= seq![seq![origin@]]);
            assert(s.visited_view() =~= Seq::<Seq<char>>::empty());
        }
        s
    }

    /// How many pages this run has expanded so far.
    pub fn pages_checked(&self) -> (c: u64)
        ensures
            c == self.counter(),
    {
        self.counter
    }

    /// Pop the shallowest waiting path (the earliest of equal depth) and
    /// decide what happens to it: an empty frontier exhausts the run; a
    /// path deeper than the bound is discarded; a stop request observed
    /// while any expandable path waits cancels the run before that path
    /// is expanded, so the run ends cancelled even if the target sits
    /// right next to it; otherwise the path is expanded and its endpoint
    /// handed out for resolution.
    pub fn next_step(&mut self, cancel: bool) -> (step: SearchStep)
        requires
            old(self).wf(),
            old(self).current_path() is None,
        ensures
            final(self).wf(),
            final(self).origin_of() == old(self).origin_of(),
            final(self).target_of() == old(self).target_of(),
            final(self).bound() == old(self).bound(),
            final(self).visited_view() == old(self).visited_view(),
            final(self).edge_set() == old(self).edge_set(),
            cancel && (exists|i: int|
                0 <= i < old(self).frontier_view().len() && path_depth(
                    old(self).frontier_view()[i],
                ) <= old(self).bound()) ==> step matches SearchStep::Cancelled(_),
            match step {
                SearchStep::Exhausted(c) => {
                    &&& old(self).frontier_view().len() == 0
                    &&& c == old(self).counter()
                    &&& *final(self) == *old(self)
                },
                SearchStep::Cancelled(c) => {
                    &&& cancel
                    &&& c == old(self).counter()
                    &&& final(self).counter() == old(self).counter()
                    &&& final(self).current_path() is None
                    &&& final(self).expanded_depths() == old(self).expanded_depths()
                    &&& exists|i: int|
                        #![auto]
                        {
                            &&& 0 <= i < old(self).frontier_view().len()
                            &&& final(self).frontier_view() == old(self).frontier_view().remove(i)
                            &&& path_depth(old(self).frontier_view()[i]) <= old(self).bound()
                        }
                },
                SearchStep::Pruned => {
                    &&& final(self).counter() == old(self).counter()
                    &&& final(self).current_path() is None
                    &&& final(self).expanded_depths() == old(self).expanded_depths()
                    &&& exists|i: int|
                        #![auto]
                        {
                            &&& 0 <= i < old(self).frontier_view().len()
                            &&& final(self).frontier_view() == old(self).frontier_view().remove(i)
                            &&& path_depth(old(self).frontier_view()[i]) > old(self).bound()
                            &&& forall|j: int|
                                0 <= j < old(self).frontier_view().len() ==> path_depth(
                                    #[trigger] old(self).frontier_view()[j],
                                ) >= path_depth(old(self).frontier_view()[i])
                        }
                },
                SearchStep::Expand(page) => {
                    &&& !cancel
                    &&& final(self).counter() == inc_counter(old(self).counter())
                    &&& exists|i: int|
                        #![auto]
                        {
                            &&& 0 <= i < old(self).frontier_view().len()
                            &&& final(self).frontier_view() == old(self).frontier_view().remove(i)
                            &&& final(self).current_path() == Some(old(self).frontier_view()[i])
                            &&& page@ == old(self).frontier_view()[i].last()
                            &&& path_depth(old(self).frontier_view()[i]) <= old(self).bound()
                            &&& final(self).path_ok(old(self).frontier_view()[i])
                            &&& tail_avoids(old(self).frontier_view()[i], old(self).target_of())
                            &&& final(self).expanded_depths() == old(self).expanded_depths().push(path_depth(old(self).frontier_view()[i]))
                            &&& forall|j: int|
                                0 <= j < old(self).frontier_view().len() ==> path_depth(
                                    #[trigger] old(self).frontier_view()[j],
                                ) >= path_depth(old(self).frontier_view()[i])
                            &&& forall|j: int|
                                0 <= j < i ==> path_depth(
                                    #[trigger] old(self).frontier_view()[j],
                                ) > path_depth(old(self).frontier_view()[i])
                        }
                },
            },
    {
        if self.frontier.len() == 0 {
            return SearchStep::Exhausted(self.counter);
        }
        let ghost pre = *self;
        proof {
            assert forall|j: int|
                0 <= j < self.frontier@.len() implies #[trigger] self.frontier@[j].0.len()
                >= 1 by {
                assert(self.path_ok(self.frontier_view()[j]));
                assert(self.frontier_view()[j] == self.frontier@[j].0.deep_view());
            }
        }
        let i = find_min_idx(&self.frontier);
        let qreq = self.frontier.remove(i);
        proof {
            pre.frontier@.remove_ensures(i as int);
            pre.frontier_view().remove_ensures(i as int);
            assert(self.origin_of() == pre.origin_of());
            assert(self.edge_set() == pre.edge_set());
            assert(self.floor() == pre.floor());
            assert(self.frontier@ == pre.frontier@.remove(i as int));
            assert forall|j: int|
                0 <= j < self.frontier_view().len() implies self.frontier_view()[j]
                == pre.frontier_view()[if j < i as int { j } else { j + 1 }] by {
                let j0 = if j < i as int {
                    j
                } else {
                    j + 1
                };
                assert(pre.frontier@.remove(i as int)[j] == pre.frontier@[j0]);
                assert(self.frontier_view()[j] == self.frontier@[j].0.deep_view());
                assert(pre.frontier_view()[j0] == pre.frontier@[j0].0.deep_view());
            }
            assert(self.frontier_view() =~= pre.frontier_view().remove(i as int));
            assert(qreq.0.deep_view() == pre.frontier_view()[i as int]);
            assert(self.visited_view() == pre.visited_view());
            assert(self.target_of() == pre.target_of());
            assert forall|k: int|
                0 <= k < self.visited_view().len() implies #[trigger] self.visited_view()[k]
                != self.target_of() by {
                assert(pre.visited_view()[k] != pre.target_of());
            }
            assert(self.expanded@ == pre.expanded@);
            assert forall|n: int| 0 <= n < self.expanded@.len() implies #[trigger] self.expanded@[n]
                >= 0 by {
                assert(pre.expanded@[n] >= 0);
            }
            assert forall|n1: int, n2: int|
                0 <= n1 <= n2 < self.expanded@.len() implies #[trigger] self.expanded@[n1]
                <= #[trigger] self.expanded@[n2] by {
                assert(pre.expanded@[n1] <= pre.expanded@[n2]);
            }
            assert forall|j: int|
                0 <= j < self.frontier_view().len() implies self.path_ok(
                #[trigger] self.frontier_view()[j],
            ) && path_depth(self.frontier_view()[j]) >= self.floor() && tail_avoids(
                self.frontier_view()[j],
                self.target_of(),
            ) by {
                let j0 = if j < i as int {
                    j
                } else {
                    j + 1
                };
                assert(self.frontier_view()[j] == pre.frontier_view()[j0]);
                assert(pre.path_ok(pre.frontier_view()[j0]) && path_depth(
                    pre.frontier_view()[j0],
                ) >= pre.floor() && tail_avoids(pre.frontier_view()[j0], pre.target_of()));
                assert(self.path_ok(self.frontier_view()[j]));
            }
        }
        let ghost fv = pre.frontier_view();
        proof {
            assert forall|j: int| 0 <= j < fv.len() implies path_depth(#[trigger] fv[j])
                >= path_depth(fv[i as int]) by {
                assert(fv[j] == pre.frontier@[j].0.deep_view());
            }
            assert forall|j: int| 0 <= j < i implies path_depth(#[trigger] fv[j]) > path_depth(
                fv[i as int],
            ) by {
                assert(fv[j] == pre.frontier@[j].0.deep_view());
            }
        }
        let d = qreq.depth();
        if d > self.max_depth {
            proof {
                assert((i as int) < fv.len() && self.frontier_view() == fv.remove(i as int)
                    && path_depth(fv[i as int]) > pre.bound());
            }
            return SearchStep::Pruned;
        }
        if cancel {
            proof {
                assert((i as int) < fv.len() && self.frontier_view() == fv.remove(i as int)
                    && path_depth(fv[i as int]) <= pre.bound());
            }
            return SearchStep::Cancelled(self.counter);
        }
        if self.counter < u64::MAX {
            self.counter = self.counter + 1;
        }
        let page = qreq.0[qreq.0.len() - 1].clone();
        let ghost dd = path_depth(qreq.0.deep_view());
        proof {
            assert(page@ == qreq.0.deep_view().last());
        }
        self.expanded = Ghost(self.expanded@.push(dd));
        self.current = Some(qreq);
        proof {
            assert(self.expanded@.last() == dd);
            assert(dd >= pre.floor());
            if pre.expanded@.len() > 0 {
                assert(pre.expanded@.last() == pre.floor());
            }
            assert forall|n1: int, n2: int|
                0 <= n1 <= n2 < self.expanded@.len() implies #[trigger] self.expanded@[n1]
                <= #[trigger] self.expanded@[n2] by {
                if n2 < pre.expanded@.len() {
                    assert(pre.expanded@[n1] <= pre.expanded@[n2]);
                } else if n1 < pre.expanded@.len() {
                    assert(pre.expanded@[n1] <= pre.expanded@[pre.expanded@.len() - 1]);
                }
            }
            assert forall|j: int|
                0 <= j < self.frontier_view().len() implies self.path_ok(
                #[trigger] self.frontier_view()[j],
            ) && path_depth(self.frontier_view()[j]) >= self.floor() && tail_avoids(
                self.frontier_view()[j],
                self.target_of(),
            ) by {
                assert(pre.frontier_view().remove(i as int)[j] == self.frontier_view()[j]);
                let j0 = if j < i as int {
                    j
                } else {
                    j + 1
                };
                assert(self.frontier_view()[j] == pre.frontier_view()[j0]);
                assert(pre.path_ok(pre.frontier_view()[j0]));
                assert(tail_avoids(pre.frontier_view()[j0], pre.target_of()));
                assert(path_depth(pre.frontier_view()[j0]) >= dd);
            }
            assert(pre.path_ok(pre.frontier_view()[i as int]));
            assert(tail_avoids(pre.frontier_view()[i as int], pre.target_of()));
            assert(self.path_ok(qreq.0.deep_view()));
            assert(tail_avoids(qreq.0.deep_view(), self.target_of()));
        }
        SearchStep::Expand(page)
    }

    /// Process the outbound links of the path popped last: every link not
    /// yet enqueued either is the target — the run ends at once with the
    /// extended path, first match wins — or joins the visited set and the
    /// frontier as a path one edge deeper.
    /// Process the outbound links of the path popped last: every link not
    /// yet enqueued either is the target — the run ends at once with the
    /// extended path, first match wins — or joins the visited set and the
    /// frontier as a path one edge deeper; `offered_paths` and
    /// `offered_visits` say exactly which entries are added and in what
    /// order.
    pub fn offer_links(&mut self, links: &Vec<WikiUrl>) -> (found: Option<Vec<WikiUrl>>)
        requires
            old(self).wf(),
            old(self).current_path() is Some,
        ensures
            final(self).wf(),
            final(self).origin_of() == old(self).origin_of(),
            final(self).target_of() == old(self).target_of(),
            final(self).bound() == old(self).bound(),
            final(self).counter() == old(self).counter(),
            final(self).expanded_depths() == old(self).expanded_depths(),
            final(self).current_path() is None,
            final(self).edge_set() == old(self).edge_set() + link_edges(
                old(self).current_path()->Some_0.last(),
                links.deep_view(),
            ),
            final(self).frontier_view() == old(self).frontier_view() + offered_paths(
                old(self).current_path()->Some_0,
                links.deep_view(),
                old(self).visited_view(),
                old(self).target_of(),
            ),
            final(self).visited_view() == old(self).visited_view() + offered_visits(
                links.deep_view(),
                old(self).visited_view(),
                old(self).target_of(),
            ),
            final(self).frontier_view().len() >= old(self).frontier_view().len(),
            forall|t: int|
                0 <= t < old(self).frontier_view().len() ==> #[trigger] final(self).frontier_view()[t] == old(self).frontier_view()[t],
            forall|t: int|
                old(self).frontier_view().len() <= t < final(self).frontier_view().len()
                    ==> path_depth(#[trigger] final(self).frontier_view()[t]) == path_depth(
                    old(self).current_path()->Some_0,
                ) + 1,
            forall|t: int|
                0 <= t < old(self).visited_view().len() ==> #[trigger] final(self).visited_view()[t] == old(self).visited_view()[t],
            final(self).visited_view().len() >= old(self).visited_view().len(),
            match found {
                Some(path) => {
                    &&& exists|t: int|
                        0 <= t < links.deep_view().len() && #[trigger] links.deep_view()[t] == old(self).target_of()
                    &&& path.deep_view() == old(self).current_path()->Some_0.push(
                        old(self).target_of(),
                    )
                    &&& final(self).path_ok(path.deep_view())
                    &&& path.deep_view().last() == old(self).target_of()
                    &&& forall|i: int|
                        1 <= i < path.deep_view().len() - 1 ==> #[trigger] path.deep_view()[i]
                            != old(self).target_of()
                    &&& path_depth(path.deep_view()) == path_depth(
                        old(self).current_path()->Some_0,
                    ) + 1
                    &&& path_depth(path.deep_view()) <= old(self).bound() + 1
                },
                None => forall|t: int|
                    0 <= t < links.deep_view().len() ==> #[trigger] links.deep_view()[t] != old(self).target_of(),
            },
    {
        let cur: Vec<WikiUrl> = match self.current.take() {
            Some(q) => q.0,
            None => vstd::pervasive::unreached(),
        };
        let ghost cur_v = cur.deep_view();
        let ghost pre0 = *old(self);
        let ghost ldv = links.deep_view();
        let ghost tv = pre0.target_of();
        let ghost vis0 = pre0.visited_view();
        let last = cur[cur.len() - 1].clone();
        self.edges = Ghost(self.edges@ + link_edges(last@, links.deep_view()));
        proof {
            assert(last@ == cur_v.last());
            assert(self.edge_set() == pre0.edge_set() + link_edges(cur_v.last(), links.deep_view()));
            assert(self.path_ok(cur_v) && path_depth(cur_v) == self.floor() && path_depth(cur_v)
                <= self.bound()) by {
                assert(pre0.path_ok(cur_v) && path_depth(cur_v) == pre0.floor() && path_depth(cur_v)
                    <= pre0.bound());
                assert forall|k: int|
                    0 <= k < cur_v.len() - 1 implies #[trigger] self.edge_set().contains(
                    (cur_v[k], cur_v[k + 1]),
                ) by {
                    assert(pre0.edge_set().contains((cur_v[k], cur_v[k + 1])));
                }
            }
            assert(tail_avoids(cur_v, tv));
            assert forall|t: int|
                0 <= t < self.frontier_view().len() implies self.path_ok(
                #[trigger] self.frontier_view()[t],
            ) && path_depth(self.frontier_view()[t]) >= self.floor() && tail_avoids(
                self.frontier_view()[t],
                self.target_of(),
            ) by {
                let p = pre0.frontier_view()[t];
                assert(pre0.path_ok(p) && path_depth(p) >= pre0.floor() && tail_avoids(
                    p,
                    pre0.target_of(),
                ));
                assert(self.frontier_view()[t] == p);
                assert forall|k: int|
                    0 <= k < p.len() - 1 implies #[trigger] self.edge_set().contains(
                    (p[k], p[k + 1]),
                ) by {
                    assert(pre0.edge_set().contains((p[k], p[k + 1])));
                }
            }
            assert forall|k: int|
                0 <= k < self.visited_view().len() implies #[trigger] self.visited_view()[k]
                != self.target_of() by {
                assert(pre0.visited_view()[k] != pre0.target_of());
            }
            assert(ldv.skip(0) =~= ldv);
        }
        let m = links.len();
        let mut j: usize = 0;
        while j < m
            invariant
                m == links.len(),
                j <= m,
                ldv == links.deep_view(),
                tv == pre0.target_of(),
                vis0 == pre0.visited_view(),
                self.origin_of() == pre0.origin_of(),
                self.target_of() == pre0.target_of(),
                self.bound() == pre0.bound(),
                self.counter() == pre0.counter(),
                self.expanded@ == pre0.expanded@,
                self.floor() == pre0.floor(),
                self.current_path() is None,
                self.edge_set() == pre0.edge_set() + link_edges(cur_v.last(), links.deep_view()),
                cur.deep_view() == cur_v,
                cur_v == pre0.current_path()->Some_0,
                cur_v.len() >= 1,
                path_depth(cur_v) == self.floor(),
                path_depth(cur_v) <= self.bound(),
                self.path_ok(cur_v),
                tail_avoids(cur_v, tv),
                self.wf(),
                pre0 == *old(self),
                self.frontier_view() + offered_paths(cur_v, ldv.skip(j as int), self.visited_view(), tv)
                    == pre0.frontier_view() + offered_paths(cur_v, ldv, vis0, tv),
                self.visited_view() + offered_visits(ldv.skip(j as int), self.visited_view(), tv)
                    == vis0 + offered_visits(ldv, vis0, tv),
                self.frontier_view().len() >= pre0.frontier_view().len(),
                forall|t: int|
                    0 <= t < pre0.frontier_view().len() ==> #[trigger] self.frontier_view()[t]
                        == pre0.frontier_view()[t],
                forall|t: int|
                    pre0.frontier_view().len() <= t < self.frontier_view().len() ==> path_depth(
                        #[trigger] self.frontier_view()[t],
                    ) == path_depth(cur_v) + 1,
                forall|t: int|
                    0 <= t < pre0.visited_view().len() ==> #[trigger] self.visited_view()[t]
                        == pre0.visited_view()[t],
                self.visited_view().len() >= pre0.visited_view().len(),
                forall|t: int|
                    0 <= t < j ==> #[trigger] links.deep_view()[t] != self.target_of(),
            decreases m - j,
        {
            proof {
                assert(ldv.skip(j as int).len() == m - j);
                assert(ldv.skip(j as int)[0] == ldv[j as int]);
                assert(ldv.skip(j as int).drop_first() =~= ldv.skip(j as int + 1));
            }
            let link = &links[j];
            if !contains_url(&self.visited, link) {
                let mut d2 = cur.clone();
                proof {
                    assert forall|t: int| 0 <= t < d2@.len() implies d2@[t] == cur@[t] by {}
                    assert(d2.deep_view() =~= cur_v);
                }
                d2.push(link.clone());
                proof {
                    assert(d2.deep_view() =~= cur_v.push(links.deep_view()[j as int]));
                }
                if *link == self.target {
                    proof {
                        assert(links.deep_view()[j as int] == self.target_of());
                        assert(!self.visited_view().contains(ldv[j as int]));
                        assert(offered_paths(cur_v, ldv.skip(j as int), self.visited_view(), tv)
                            =~= Seq::<Seq<Seq<char>>>::empty());
                        assert(offered_visits(ldv.skip(j as int), self.visited_view(), tv)
                            =~= Seq::<Seq<char>>::empty());
                        assert(self.frontier_view() + offered_paths(
                            cur_v,
                            ldv.skip(j as int),
                            self.visited_view(),
                            tv,
                        ) =~= self.frontier_view());
                        assert(self.visited_view() + offered_visits(
                            ldv.skip(j as int),
                            self.visited_view(),
                            tv,
                        ) =~= self.visited_view());
                        let p = d2.deep_view();
                        assert(p == cur_v.push(self.target_of()));
                        assert(p.last() == self.target_of());
                        assert forall|i: int|
                            1 <= i < p.len() - 1 implies #[trigger] p[i] != tv by {
                            assert(p[i] == cur_v[i]);
                        }
                        assert forall|k: int|
                            0 <= k < p.len() - 1 implies #[trigger] self.edge_set().contains(
                            (p[k], p[k + 1]),
                        ) by {
                            if k < cur_v.len() - 1 {
                                assert(p[k] == cur_v[k] && p[k + 1] == cur_v[k + 1]);
                                assert(self.edge_set().contains((cur_v[k], cur_v[k + 1])));
                            } else {
                                assert(p[k] == cur_v.last());
                                assert(links.deep_view().contains(links.deep_view()[j as int]));
                                assert(link_edges(cur_v.last(), links.deep_view()).contains(
                                    (cur_v.last(), links.deep_view()[j as int]),
                                ));
                            }
                        }
                        assert(self.path_ok(p));
                    }
                    return Some(d2);
                }
                let ghost mid = *self;
                self.visited.push(link.clone());
                self.frontier.push(QueueRequest(d2));
                proof {
                    let newp = cur_v.push(links.deep_view()[j as int]);
                    assert(self.visited@ =~= mid.visited@.push(links@[j as int]));
                    assert(self.visited_view() =~= mid.visited_view().push(
                        links.deep_view()[j as int],
                    ));
                    assert(self.frontier_view() =~= mid.frontier_view().push(newp));
                    assert(!mid.visited_view().contains(ldv[j as int]));
                    assert(ldv[j as int] != tv);
                    assert(offered_paths(cur_v, ldv.skip(j as int), mid.visited_view(), tv)
                        == seq![newp] + offered_paths(
                        cur_v,
                        ldv.skip(j as int + 1),
                        mid.visited_view().push(ldv[j as int]),
                        tv,
                    ));
                    assert(offered_visits(ldv.skip(j as int), mid.visited_view(), tv)
                        == seq![ldv[j as int]] + offered_visits(
                        ldv.skip(j as int + 1),
                        mid.visited_view().push(ldv[j as int]),
                        tv,
                    ));
                    assert(self.visited_view() == mid.visited_view().push(ldv[j as int]));
                    assert(self.frontier_view() =~= mid.frontier_view() + seq![newp]);
                    assert((mid.frontier_view() + seq![newp]) + offered_paths(
                        cur_v,
                        ldv.skip(j as int + 1),
                        self.visited_view(),
                        tv,
                    ) =~= mid.frontier_view() + (seq![newp] + offered_paths(
                        cur_v,
                        ldv.skip(j as int + 1),
                        self.visited_view(),
                        tv,
                    )));
                    assert(self.frontier_view() + offered_paths(
                        cur_v,
                        ldv.skip(j as int + 1),
                        self.visited_view(),
                        tv,
                    ) == pre0.frontier_view() + offered_paths(cur_v, ldv, vis0, tv));
                    assert((mid.visited_view() + seq![ldv[j as int]]) + offered_visits(
                        ldv.skip(j as int + 1),
                        self.visited_view(),
                        tv,
                    ) =~= mid.visited_view() + (seq![ldv[j as int]] + offered_visits(
                        ldv.skip(j as int + 1),
                        self.visited_view(),
                        tv,
                    )));
                    assert(self.visited_view() =~= mid.visited_view() + seq![ldv[j as int]]);
                    assert(self.visited_view() + offered_visits(
                        ldv.skip(j as int + 1),
                        self.visited_view(),
                        tv,
                    ) == vis0 + offered_visits(ldv, vis0, tv));
                    assert(newp[0] == cur_v[0]);
                    assert forall|k: int|
                        0 <= k < newp.len() - 1 implies #[trigger] self.edge_set().contains(
                        (newp[k], newp[k + 1]),
                    ) by {
                        if k < cur_v.len() - 1 {
                            assert(newp[k] == cur_v[k] && newp[k + 1] == cur_v[k + 1]);
                            assert(self.edge_set().contains((cur_v[k], cur_v[k + 1])));
                        } else {
                            assert(newp[k] == cur_v.last());
                            assert(links.deep_view().contains(links.deep_view()[j as int]));
                        }
                    }
                    assert(self.path_ok(newp));
                    assert(path_depth(newp) == path_depth(cur_v) + 1);
                    assert(tail_avoids(newp, tv)) by {
                        assert forall|i: int| 1 <= i < newp.len() implies newp[i] != tv by {
                            if i < cur_v.len() {
                                assert(newp[i] == cur_v[i]);
                            } else {
                                assert(newp[i] == ldv[j as int]);
                            }
                        }
                    }
                    assert forall|t: int|
                        0 <= t < self.frontier_view().len() implies self.path_ok(
                        #[trigger] self.frontier_view()[t],
                    ) && path_depth(self.frontier_view()[t]) >= self.floor() && tail_avoids(
                        self.frontier_view()[t],
                        self.target_of(),
                    ) by {
                        if t < mid.frontier_view().len() {
                            assert(self.frontier_view()[t] == mid.frontier_view()[t]);
                            assert(mid.path_ok(mid.frontier_view()[t]) && path_depth(
                                mid.frontier_view()[t],
                            ) >= mid.floor() && tail_avoids(
                                mid.frontier_view()[t],
                                mid.target_of(),
                            ));
                        } else {
                            assert(self.frontier_view()[t] == newp);
                        }
                    }
                    assert forall|k: int|
                        0 <= k < self.visited_view().len() implies #[trigger] self.visited_view()[k]
                        != self.target_of() by {
                        if k < mid.visited_view().len() {
                            assert(mid.visited_view()[k] != mid.target_of());
                        } else {
                            assert(self.visited_view()[k] == links.deep_view()[j as int]);
                        }
                    }
                }
            } else {
                proof {
                    let vv = self.visited.deep_view();
                    assert(vv.contains(links.deep_view()[j as int]));
                    let t = choose|t: int| 0 <= t < vv.len() && vv[t] == links.deep_view()[j as int];
                    assert(vv[t] != self.target_of());
                    assert(offered_paths(cur_v, ldv.skip(j as int), self.visited_view(), tv)
                        == offered_paths(cur_v, ldv.skip(j as int + 1), self.visited_view(), tv));
                    assert(offered_visits(ldv.skip(j as int), self.visited_view(), tv)
                        == offered_visits(ldv.skip(j as int + 1), self.visited_view(), tv));
                }
            }
            j += 1;
        }
        proof {
            assert(ldv.skip(m as int) =~= Seq::<Seq<char>>::empty());
            assert(offered_paths(cur_v, ldv.skip(m as int), self.visited_view(), tv)
                =~= Seq::<Seq<Seq<char>>>::empty());
            assert(offered_visits(ldv.skip(m as int), self.visited_view(), tv)
                =~= Seq::<Seq<char>>::empty());
            assert(self.frontier_view() + offered_paths(
                cur_v,
                ldv.skip(m as int),
                self.visited_view(),
                tv,
            ) =~= self.frontier_view());
            assert(self.visited_view() + offered_visits(
                ldv.skip(m as int),
                self.visited_view(),
                tv,
            ) =~= self.visited_view());
        }
        None
    }

    /// Law: expansions happen in nondecreasing depth order — a path
    /// expanded at a later step is never shallower than one expanded at an
    /// earlier step of the same run.
    pub proof fn lemma_monotonic_depth(self, n1: int, n2: int)
        requires
            self.wf(),
            0 <= n1 <= n2 < self.expanded_depths().len(),
        ensures
            self.expanded_depths()[n1] <= self.expanded_depths()[n2],
    {
    }
}

/// The cache can serve outbound links for `a` and they include `b`: the
/// edge relation of the graph as discovered so far.
pub open spec fn cache_edge(c: DbCache, a: Seq<char>, b: Seq<char>) -> bool {
    c.spec_lookup(a) is Some && c.spec_lookup(a)->Some_0.contains(b)
}

/// Every edge this search has seen was served by the cache.
pub open spec fn edges_from_cache(s: Search, c: DbCache) -> bool {
    forall|e: (Seq<char>, Seq<char>)| #[trigger]
        s.edge_set().contains(e) ==> cache_edge(c, e.0, e.1)
}

/// Some page reachable from `from` along cache edges within `depth`
/// edges cannot be served by the cache: the one way a cache-resolved run
/// can fail a fetch.
pub open spec fn some_unresolvable_within(c: DbCache, from: Seq<char>, depth: int) -> bool {
    exists|q: Seq<Seq<char>>|
        #![auto]
        {
            &&& q.len() >= 1
            &&& q[0] == from
            &&& path_depth(q) <= depth
            &&& forall|k: int| 0 <= k < q.len() - 1 ==> cache_edge(c, #[trigger] q[k], q[k + 1])
            &&& c.spec_lookup(q.last()) is None
        }
}

/// Run one whole search from `from` to `to`, resolving every page from
/// the given cache. A fetch failure arises only from a page reachable
/// within the bound that the cache cannot serve; an origin with no links
/// exhausts the run after the one expansion. With depth bound zero the
/// outcome is decided by the origin's own link set alone: found exactly
/// when the target is a direct member, otherwise no path with one page
/// checked. With a positive bound, a target sitting behind the origin's
/// first link is found as the exact two-edge path.
pub fn query(cache: &DbCache, from: WikiUrl, to: WikiUrl, depth: u8) -> (r: Result<
    (u64, Vec<WikiUrl>),
    SearchError,
>)
    requires
        cache.wf(),
    ensures
        match r {
            Ok((c, path)) => {
                &&& path.deep_view().len() >= 2
                &&& path.deep_view()[0] == from@
                &&& path.deep_view().last() == to@
                &&& forall|k: int|
                    0 <= k < path.deep_view().len() - 1 ==> cache_edge(
                        *cache,
                        #[trigger] path.deep_view()[k],
                        path.deep_view()[k + 1],
                    )
                &&& path.deep_view().len() <= depth + 2
                &&& c >= 1
            },
            Err(e) => e is FetchFailed || e is NotFound,
        },
        cache.spec_lookup(from@) is None ==> r == Err::<(u64, Vec<WikiUrl>), SearchError>(
            SearchError::FetchFailed,
        ),
        cache.spec_lookup(from@) is Some && cache.spec_lookup(from@)->Some_0.contains(to@)
            ==> match r {
            Ok((c, path)) => c == 1 && path.deep_view() == seq![from@, to@],
            Err(_) => false,
        },
        depth == 0 && cache.spec_lookup(from@) is Some && !cache.spec_lookup(
            from@,
        )->Some_0.contains(to@) ==> r == Err::<(u64, Vec<WikiUrl>), SearchError>(
            SearchError::NotFound(1),
        ),
        match r {
            Ok((c, path)) => forall|i: int|
                0 < i < path.deep_view().len() - 1 ==> #[trigger] path.deep_view()[i] != to@,
            Err(_) => true,
        },
        cache.spec_lookup(from@) is Some && cache.spec_lookup(from@)->Some_0.len() == 0 ==> r
            == Err::<(u64, Vec<WikiUrl>), SearchError>(SearchError::NotFound(1)),
        r == Err::<(u64, Vec<WikiUrl>), SearchError>(SearchError::FetchFailed)
            ==> some_unresolvable_within(*cache, from@, depth as int),
        depth >= 1 && cache.spec_lookup(from@) is Some && cache.spec_lookup(from@)->Some_0.len()
            >= 1 && !cache.spec_lookup(from@)->Some_0.contains(to@) && cache.spec_lookup(
            cache.spec_lookup(from@)->Some_0[0],
        ) is Some && cache.spec_lookup(cache.spec_lookup(from@)->Some_0[0])->Some_0.contains(to@)
            ==> match r {
            Ok((c, path)) => c == 2 && path.deep_view() == seq![
                from@,
                cache.spec_lookup(from@)->Some_0[0],
                to@,
            ],
            Err(_) => false,
        },
{
    let ghost from_v = from@;
    let ghost to_v = to@;
    let ghost lfirst = if cache.spec_lookup(from@) is Some && cache.spec_lookup(
        from@,
    )->Some_0.len() >= 1 {
        cache.spec_lookup(from@)->Some_0[0]
    } else {
        to@
    };
    let ghost hyp2 = depth >= 1 && cache.spec_lookup(from@) is Some && cache.spec_lookup(
        from@,
    )->Some_0.len() >= 1 && !cache.spec_lookup(from@)->Some_0.contains(to@) && cache.spec_lookup(
        lfirst,
    ) is Some && cache.spec_lookup(lfirst)->Some_0.contains(to@);
    let mut search = Search::new(from, to, depth as usize);
    let ghost s0 = search;
    let step0 = search.next_step(false);
    let page0 = match step0 {
        SearchStep::Expand(p) => p,
        SearchStep::Pruned => {
            proof {
                assert(s0.frontier_view().len() == 1);
                assert(path_depth(s0.frontier_view()[0]) == 0);
                assert(false);
            }
            vstd::pervasive::unreached()
        },
        SearchStep::Exhausted(_) => vstd::pervasive::unreached(),
        SearchStep::Cancelled(_) => vstd::pervasive::unreached(),
    };
    proof {
        assert(search.current_path() == Some(s0.frontier_view()[0]));
        assert(page0@ == from_v);
        assert(search.counter() == 1);
    }
    let links0 = match cache.fetch_from_cache(&page0) {
        Some(l) => l,
        None => {
            proof {
                let q = seq![from_v];
                assert(q.len() == 1 && q[0] == from_v && q.last() == from_v);
                assert(path_depth(q) == 0);
                assert(cache.spec_lookup(from_v) is None);
                assert(some_unresolvable_within(*cache, from_v, depth as int));
            }
            return Err(SearchError::FetchFailed);
        },
    };
    let ghost l0 = links0.deep_view();
    proof {
        assert(cache.spec_lookup(from_v) == Some(l0));
    }
    let ghost s1 = search;
    if let Some(path) = search.offer_links(&links0) {
        let c = search.pages_checked();
        proof {
            assert(path.deep_view() =~= seq![from_v, to_v]);
            assert(l0.contains(to_v));
            assert forall|k: int|
                0 <= k < path.deep_view().len() - 1 implies cache_edge(
                *cache,
                #[trigger] path.deep_view()[k],
                path.deep_view()[k + 1],
            ) by {
                assert(search.edge_set().contains((from_v, to_v)));
                assert(link_edges(from_v, l0).contains((from_v, to_v)));
            }
            assert forall|i: int|
                0 < i < path.deep_view().len() - 1 implies #[trigger] path.deep_view()[i]
                != to_v by {}
        }
        return Ok((c, path));
    }
    proof {
        assert(!l0.contains(to_v)) by {
            if l0.contains(to_v) {
                let t = choose|t: int| 0 <= t < l0.len() && l0[t] == to_v;
                assert(l0[t] != to_v);
            }
        }
        assert(edges_from_cache(search, *cache)) by {
            assert forall|e: (Seq<char>, Seq<char>)| #[trigger]
                search.edge_set().contains(e) implies cache_edge(*cache, e.0, e.1) by {
                assert(link_edges(from_v, l0).contains(e));
                assert(e.0 == from_v && l0.contains(e.1));
            }
        }
        if depth == 0 {
            assert forall|t: int|
                0 <= t < search.frontier_view().len() implies path_depth(
                #[trigger] search.frontier_view()[t],
            ) >= 1 by {
                if t < s1.frontier_view().len() {
                    assert(s1.frontier_view()[t] == s0.frontier_view().remove(0)[t]);
                }
            }
        }
        if hyp2 {
            assert(lfirst == l0[0]);
            assert(l0.contains(l0[0]));
            assert(lfirst != to_v);
            s0.frontier_view().remove_ensures(0);
            assert(s1.frontier_view().len() == 0);
            assert(s1.visited_view() =~= Seq::<Seq<char>>::empty());
            assert(!s1.visited_view().contains(lfirst));
            assert(s1.current_path()->Some_0 == seq![from_v]);
            assert(offered_paths(seq![from_v], l0, s1.visited_view(), to_v) == seq![
                seq![from_v].push(lfirst),
            ] + offered_paths(
                seq![from_v],
                l0.drop_first(),
                s1.visited_view().push(lfirst),
                to_v,
            ));
            assert(search.frontier_view().len() >= 1);
            assert(search.frontier_view()[0] =~= seq![from_v, lfirst]);
            assert forall|t: int|
                0 <= t < search.frontier_view().len() implies path_depth(
                #[trigger] search.frontier_view()[t],
            ) == 1 by {
                assert(s1.frontier_view().len() <= t);
            }
        }
        if l0.len() == 0 {
            s0.frontier_view().remove_ensures(0);
            assert(s1.frontier_view().len() == 0);
            assert(offered_paths(s1.current_path()->Some_0, l0, s1.visited_view(), s1.target_of())
                == Seq::<Seq<Seq<char>>>::empty());
            assert(search.frontier_view() =~= s1.frontier_view());
            assert(search.frontier_view().len() == 0);
            assert(search.counter() == 1);
        }
    }
    let mut outcome: Option<Result<(u64, Vec<WikiUrl>), SearchError>> = None;
    // a budget on pops that no run can come near; if it ever ran out the
    // run would end as not found with the count reached so far
    let mut fuel: u128 = u128::MAX;
    while outcome.is_none() && fuel > 0
        invariant
            cache.wf(),
            cache.spec_lookup(from_v) is Some,
            !cache.spec_lookup(from_v)->Some_0.contains(to_v),
            lfirst == (if cache.spec_lookup(from_v) is Some && cache.spec_lookup(
                from_v,
            )->Some_0.len() >= 1 {
                cache.spec_lookup(from_v)->Some_0[0]
            } else {
                to_v
            }),
            hyp2 == (depth >= 1 && cache.spec_lookup(from_v) is Some && cache.spec_lookup(
                from_v,
            )->Some_0.len() >= 1 && !cache.spec_lookup(from_v)->Some_0.contains(to_v)
                && cache.spec_lookup(lfirst) is Some && cache.spec_lookup(
                lfirst,
            )->Some_0.contains(to_v)),
            match outcome {
                Some(r_) => {
                    &&& match r_ {
                        Ok((c, path)) => {
                            &&& path.deep_view().len() >= 2
                            &&& path.deep_view()[0] == from_v
                            &&& path.deep_view().last() == to_v
                            &&& forall|k: int|
                                0 <= k < path.deep_view().len() - 1 ==> cache_edge(
                                    *cache,
                                    #[trigger] path.deep_view()[k],
                                    path.deep_view()[k + 1],
                                )
                            &&& path.deep_view().len() <= depth + 2
                            &&& c >= 1
                            &&& forall|i: int|
                                0 < i < path.deep_view().len() - 1
                                    ==> #[trigger] path.deep_view()[i] != to_v
                        },
                        Err(e) => e is FetchFailed || e is NotFound,
                    }
                    &&& (depth == 0 ==> r_ == Err::<(u64, Vec<WikiUrl>), SearchError>(
                        SearchError::NotFound(1),
                    ))
                    &&& (cache.spec_lookup(from_v)->Some_0.len() == 0 ==> r_ == Err::<
                        (u64, Vec<WikiUrl>),
                        SearchError,
                    >(SearchError::NotFound(1)))
                    &&& (r_ == Err::<(u64, Vec<WikiUrl>), SearchError>(SearchError::FetchFailed)
                        ==> some_unresolvable_within(*cache, from_v, depth as int))
                    &&& (hyp2 ==> match r_ {
                        Ok((c, path)) => c == 2 && path.deep_view() == seq![
                            from_v,
                            lfirst,
                            to_v,
                        ],
                        Err(_) => false,
                    })
                },
                None => {
                    &&& search.wf()
                    &&& search.current_path() is None
                    &&& search.origin_of() == from_v
                    &&& search.target_of() == to_v
                    &&& search.bound() == depth as int
                    &&& edges_from_cache(search, *cache)
                    &&& search.counter() >= 1
                    &&& (depth == 0 ==> search.counter() == 1 && (forall|t: int|
                        0 <= t < search.frontier_view().len() ==> path_depth(
                            #[trigger] search.frontier_view()[t],
                        ) >= 1))
                    &&& (cache.spec_lookup(from_v)->Some_0.len() == 0 ==> search.counter() == 1
                        && search.frontier_view().len() == 0)
                    &&& (hyp2 ==> fuel == u128::MAX && search.counter() == 1
                        && search.frontier_view().len() >= 1 && search.frontier_view()[0] == seq![
                        from_v,
                        lfirst,
                    ] && (forall|t: int|
                        0 <= t < search.frontier_view().len() ==> path_depth(
                            #[trigger] search.frontier_view()[t],
                        ) == 1))
                },
            },
        decreases fuel,
    {
        fuel = fuel - 1;
        let ghost pre_s = search;
        match search.next_step(false) {
            SearchStep::Expand(page) => {
                proof {
                    if depth == 0 {
                        assert(false);
                    }
                    if cache.spec_lookup(from_v)->Some_0.len() == 0 {
                        assert(false);
                    }
                    if hyp2 {
                        assert(path_depth(pre_s.frontier_view()[0]) == 1);
                        assert(exists|i: int|
                            #![auto]
                            0 <= i < pre_s.frontier_view().len() && search.current_path() == Some(
                                pre_s.frontier_view()[i],
                            ) && (forall|j: int|
                                0 <= j < i ==> path_depth(
                                    #[trigger] pre_s.frontier_view()[j],
                                ) > path_depth(pre_s.frontier_view()[i])));
                        let i = choose|i: int|
                            #![auto]
                            0 <= i < pre_s.frontier_view().len() && search.current_path() == Some(
                                pre_s.frontier_view()[i],
                            ) && (forall|j: int|
                                0 <= j < i ==> path_depth(
                                    #[trigger] pre_s.frontier_view()[j],
                                ) > path_depth(pre_s.frontier_view()[i]));
                        if i != 0 {
                            assert(path_depth(pre_s.frontier_view()[i]) == 1);
                            assert(false);
                        }
                        assert(search.current_path()->Some_0 == seq![from_v, lfirst]);
                        assert(seq![from_v, lfirst].last() == lfirst);
                        assert(page@ == lfirst);
                    }
                }
                match cache.fetch_from_cache(&page) {
                    None => {
                        proof {
                            if hyp2 {
                                assert(cache.spec_lookup(lfirst) is Some);
                                assert(false);
                            }
                            let q = search.current_path()->Some_0;
                            assert(search.path_ok(q));
                            assert(q.len() >= 1 && q[0] == from_v);
                            assert(path_depth(q) <= depth as int);
                            assert(q.last() == page@);
                            assert(cache.spec_lookup(q.last()) is None);
                            assert(search.edge_set() == pre_s.edge_set());
                            assert forall|k: int|
                                0 <= k < q.len() - 1 implies cache_edge(
                                *cache,
                                #[trigger] q[k],
                                q[k + 1],
                            ) by {
                                assert(search.edge_set().contains((q[k], q[k + 1])));
                                assert(pre_s.edge_set().contains((q[k], q[k + 1])));
                            }
                            assert(some_unresolvable_within(*cache, from_v, depth as int));
                        }
                        outcome = Some(Err(SearchError::FetchFailed));
                    },
                    Some(links) => {
                        let ghost ldv = links.deep_view();
                        let ghost cur = search.current_path()->Some_0;
                        proof {
                            assert(cache.spec_lookup(page@) == Some(ldv));
                            assert(cur.last() == page@);
                            assert(path_depth(cur) <= depth as int);
                        }
                        let ghost s_mid = search;
                        if let Some(path) = search.offer_links(&links) {
                            let c = search.pages_checked();
                            proof {
                                let p = path.deep_view();
                                assert(search.path_ok(p));
                                assert(p.len() >= 2);
                                assert(p[0] == from_v);
                                assert(p.last() == to_v);
                                assert(path_depth(p) == path_depth(cur) + 1);
                                assert(p.len() <= depth + 2);
                                assert forall|e: (Seq<char>, Seq<char>)| #[trigger]
                                    search.edge_set().contains(e) implies cache_edge(
                                    *cache,
                                    e.0,
                                    e.1,
                                ) by {
                                    if !s_mid.edge_set().contains(e) {
                                        assert(link_edges(page@, ldv).contains(e));
                                        assert(e.0 == page@ && ldv.contains(e.1));
                                    }
                                }
                                assert forall|k: int|
                                    0 <= k < p.len() - 1 implies cache_edge(
                                    *cache,
                                    #[trigger] p[k],
                                    p[k + 1],
                                ) by {
                                    assert(search.edge_set().contains((p[k], p[k + 1])));
                                }
                                assert forall|i: int|
                                    0 < i < p.len() - 1 implies #[trigger] p[i] != to_v by {}
                                if hyp2 {
                                    assert(cur == seq![from_v, lfirst]);
                                    assert(c == 2);
                                    assert(p =~= seq![from_v, lfirst, to_v]);
                                }
                            }
                            outcome = Some(Ok((c, path)));
                        } else {
                            proof {
                                if hyp2 {
                                    assert(ldv.contains(to_v));
                                    let w = choose|w: int|
                                        0 <= w < ldv.len() && #[trigger] ldv[w] == to_v;
                                    assert(ldv[w] != to_v);
                                    assert(false);
                                }
                                assert forall|e: (Seq<char>, Seq<char>)| #[trigger]
                                    search.edge_set().contains(e) implies cache_edge(
                                    *cache,
                                    e.0,
                                    e.1,
                                ) by {
                                    if !s_mid.edge_set().contains(e) {
                                        assert(link_edges(page@, ldv).contains(e));
                                        assert(e.0 == page@ && ldv.contains(e.1));
                                    }
                                }
                            }
                        }
                    },
                }
            },
            SearchStep::Pruned => {
                proof {
                    if hyp2 {
                        assert(path_depth(pre_s.frontier_view()[0]) == 1);
                        assert(false);
                    }
                    if depth == 0 {
                        let i = choose|i: int|
                            #![auto]
                            0 <= i < pre_s.frontier_view().len() && search.frontier_view()
                                == pre_s.frontier_view().remove(i) && path_depth(
                                pre_s.frontier_view()[i],
                            ) > depth as int;
                        pre_s.frontier_view().remove_ensures(i);
                        assert forall|t: int|
                            0 <= t < search.frontier_view().len() implies path_depth(
                            #[trigger] search.frontier_view()[t],
                        ) >= 1 by {
                            let t0 = if t < i {
                                t
                            } else {
                                t + 1
                            };
                            assert(search.frontier_view()[t] == pre_s.frontier_view()[t0]);
                        }
                    }
                }
            },
            SearchStep::Exhausted(c) => {
                proof {
                    if hyp2 {
                        assert(pre_s.frontier_view().len() >= 1);
                        assert(false);
                    }
                }
                outcome = Some(Err(SearchError::NotFound(c)));
            },
            SearchStep::Cancelled(_) => {
                proof {
                    assert(false);
                }
            },
        }
    }
    match outcome {
        Some(r_) => r_,
        None => Err(SearchError::NotFound(search.pages_checked())),
    }
}

/// The titles the fixed wiki-link pattern finds in a document, in match
/// order: a function of the document text alone.
pub uninterp spec fn link_titles_of(html: Seq<char>) -> Seq<Seq<char>>;

/// Relies on regex: `captures_iter` with the fixed wiki-link pattern
/// yields each match in order, and the first capture group is the title
/// between `/wiki/` and the closing quote.
#[verifier::external_body]
fn find_link_titles(html: &str) -> (r: Vec<String>)
    ensures
        r.deep_view() == link_titles_of(html@),
{
    let re = regex::Regex::new("<a href=\"/wiki/([\\w\\d_()]*)\"").unwrap();
    re.captures_iter(html).map(|c| c[1].to_string()).collect()
}

/// The link set kept from a page's raw titles: first occurrences in their
/// order, the page's own identifier left out.
pub open spec fn dedup_excluding(raw: Seq<Seq<char>>, page: Seq<char>) -> Seq<Seq<char>>
    decreases raw.len(),
{
    if raw.len() == 0 {
        Seq::empty()
    } else {
        let pre = dedup_excluding(raw.drop_last(), page);
        if raw.last() == page || raw.drop_last().contains(raw.last()) {
            pre
        } else {
            pre.push(raw.last())
        }
    }
}

/// Law: a link set built from raw titles holds a title exactly when the
/// titles hold it and it is not the page itself, and it holds no title
/// twice.
pub proof fn lemma_link_set_shape(raw: Seq<Seq<char>>, page: Seq<char>)
    ensures
        forall|t: Seq<char>| #[trigger]
            dedup_excluding(raw, page).contains(t) <==> (raw.contains(t) && t != page),
        forall|i: int, j: int|
            0 <= i < j < dedup_excluding(raw, page).len() ==> dedup_excluding(raw, page)[i]
                != dedup_excluding(raw, page)[j],
    decreases raw.len(),
{
    let d = dedup_excluding(raw, page);
    if raw.len() == 0 {
        assert forall|t: Seq<char>| !(#[trigger] d.contains(t)) by {
            if d.contains(t) {
                let w = choose|w: int| 0 <= w < d.len() && d[w] == t;
            }
        }
    } else {
        let pre_raw = raw.drop_last();
        let pre = dedup_excluding(pre_raw, page);
        lemma_link_set_shape(pre_raw, page);
        assert forall|t: Seq<char>| #[trigger]
            raw.contains(t) <==> (pre_raw.contains(t) || raw.last() == t) by {
            lemma_seq_contains_split(raw, t);
        }
        if raw.last() == page || pre_raw.contains(raw.last()) {
            assert(d == pre);
        } else {
            assert(d == pre.push(raw.last()));
            assert(d.drop_last() =~= pre);
            assert(d.last() == raw.last());
            assert forall|t: Seq<char>| #[trigger]
                d.contains(t) <==> (pre.contains(t) || raw.last() == t) by {
                lemma_seq_contains_split(d, t);
            }
            assert forall|i: int, j: int| 0 <= i < j < d.len() implies d[i] != d[j] by {
                if j < pre.len() {
                    assert(pre[i] != pre[j]);
                } else {
                    assert(d[j] == raw.last());
                    assert(d[i] == pre[i]);
                    if d[i] == raw.last() {
                        assert(pre.contains(raw.last()));
                    }
                }
            }
        }
    }
}

proof fn lemma_seq_contains_split(s: Seq<Seq<char>>, t: Seq<char>)
    requires
        s.len() >= 1,
    ensures
        s.contains(t) <==> (s.drop_last().contains(t) || s.last() == t),
{
    if s.contains(t) {
        let w = choose|w: int| 0 <= w < s.len() && s[w] == t;
        if w < s.len() - 1 {
            assert(s.drop_last()[w] == t);
            assert(s.drop_last().contains(t));
        }
    }
    if s.drop_last().contains(t) {
        let w = choose|w: int| 0 <= w < s.drop_last().len() && s.drop_last()[w] == t;
        assert(s[w] == t);
    }
    if s.last() == t {
        assert(s[s.len() - 1] == t);
    }
}

/// Turn the raw titles scraped from a page's text into its link set:
/// deduplicated in first-seen order and never naming the page itself.
pub fn make_link_set(page: &WikiUrl, raw: &Vec<String>) -> (links: Vec<WikiUrl>)
    ensures
        links.deep_view() == dedup_excluding(raw.deep_view(), page@),
{
    let mut links: Vec<WikiUrl> = Vec::new();
    let n = raw.len();
    let mut k: usize = 0;
    while k < n
        invariant
            n == raw.len(),
            k <= n,
            links.deep_view() =~= dedup_excluding(raw.deep_view().subrange(0, k as int), page@),
            forall|t: Seq<char>| #[trigger]
                links.deep_view().contains(t) <==> (raw.deep_view().subrange(
                    0,
                    k as int,
                ).contains(t) && t != page@),
        decreases n - k,
    {
        let ghost rdv = raw.deep_view();
        let ghost pre_links = links.deep_view();
        proof {
            assert(rdv.subrange(0, k as int + 1).drop_last() =~= rdv.subrange(0, k as int));
            assert(rdv.subrange(0, k as int + 1).last() == rdv[k as int]);
        }
        let title = &raw[k];
        let keep = !(*title == page.0) && !contains_title(&links, title);
        if keep {
            links.push(WikiUrl(title.clone()));
            proof {
                assert(links.deep_view() =~= pre_links.push(rdv[k as int]));
                assert(!rdv.subrange(0, k as int).contains(rdv[k as int]));
                assert forall|t: Seq<char>| #[trigger]
                    links.deep_view().contains(t) implies (rdv.subrange(0, k as int + 1).contains(
                    t,
                ) && t != page@) by {
                    let w = choose|w: int|
                        0 <= w < links.deep_view().len() && #[trigger] links.deep_view()[w] == t;
                    if w < pre_links.len() {
                        assert(pre_links.contains(t));
                        let w2 = choose|w2: int|
                            0 <= w2 < rdv.subrange(0, k as int).len() && #[trigger] rdv.subrange(
                                0,
                                k as int,
                            )[w2] == t;
                        assert(rdv.subrange(0, k as int + 1)[w2] == t);
                    } else {
                        assert(t == rdv[k as int]);
                        assert(rdv.subrange(0, k as int + 1)[k as int] == t);
                    }
                }
                assert forall|t: Seq<char>|
                    rdv.subrange(0, k as int + 1).contains(t) && t != page@ implies #[trigger]
                    links.deep_view().contains(t) by {
                    let w = choose|w: int|
                        0 <= w < rdv.subrange(0, k as int + 1).len() && #[trigger] rdv.subrange(
                            0,
                            k as int + 1,
                        )[w] == t;
                    if w < k as int {
                        assert(rdv.subrange(0, k as int).contains(t));
                        assert(pre_links.contains(t));
                        let w2 = choose|w2: int|
                            0 <= w2 < pre_links.len() && #[trigger] pre_links[w2] == t;
                        assert(links.deep_view()[w2] == t);
                    } else {
                        assert(links.deep_view()[pre_links.len() as int] == t);
                    }
                }
            }
        } else {
            proof {
                if title@ != page@ {
                    assert(links.deep_view().contains(rdv[k as int]));
                    assert(rdv.subrange(0, k as int).contains(rdv[k as int]));
                }
                assert forall|t: Seq<char>| #[trigger]
                    links.deep_view().contains(t) implies (rdv.subrange(0, k as int + 1).contains(
                    t,
                ) && t != page@) by {
                    assert(rdv.subrange(0, k as int).contains(t));
                    let w2 = choose|w2: int|
                        0 <= w2 < rdv.subrange(0, k as int).len() && #[trigger] rdv.subrange(
                            0,
                            k as int,
                        )[w2] == t;
                    assert(rdv.subrange(0, k as int + 1)[w2] == t);
                }
                assert forall|t: Seq<char>|
                    rdv.subrange(0, k as int + 1).contains(t) && t != page@ implies #[trigger]
                    links.deep_view().contains(t) by {
                    let w = choose|w: int|
                        0 <= w < rdv.subrange(0, k as int + 1).len() && #[trigger] rdv.subrange(
                            0,
                            k as int + 1,
                        )[w] == t;
                    if w < k as int {
                        assert(rdv.subrange(0, k as int).contains(t));
                    } else {
                        assert(t == rdv[k as int]);
                        if title@ == page@ {
                            assert(t == page@);
                        } else {
                            assert(links.deep_view().contains(t));
                        }
                    }
                }
            }
        }
        k += 1;
    }
    proof {
        assert(raw.deep_view().subrange(0, n as int) =~= raw.deep_view());
    }
    links
}

/// Scrape the outbound link set of `page` out of a fetched document: the
/// titles the wiki-link pattern matches, deduplicated in first-seen order
/// and excluding the page itself.
pub fn extract_links(page: &WikiUrl, html: &str) -> (links: Vec<WikiUrl>)
    ensures
        links.deep_view() == dedup_excluding(link_titles_of(html@), page@),
{
    let raw = find_link_titles(html);
    make_link_set(page, &raw)
}

fn contains_title(v: &Vec<WikiUrl>, s: &String) -> (r: bool)
    ensures
        r == v.deep_view().contains(s@),
{
    let n = v.len();
    let mut k: usize = 0;
    while k < n
        invariant
            n == v.len(),
            k <= n,
            forall|t: int| 0 <= t < k ==> #[trigger] v.deep_view()[t] != s@,
        decreases n - k,
    {
        if v[k].0 == *s {
            proof {
                assert(v.deep_view()[k as int] == s@);
            }
            return true;
        }
        k += 1;
    }
    proof {
        assert(!v.deep_view().contains(s@));
    }
    false
}

fn contains_url(v: &Vec<WikiUrl>, x: &WikiUrl) -> (r: bool)
    ensures
        r == v.deep_view().contains(x@),
{
    let n = v.len();
    let mut k: usize = 0;
    while k < n
        invariant
            n == v.len(),
            k <= n,
            forall|t: int| 0 <= t < k ==> #[trigger] v.deep_view()[t] != x@,
        decreases n - k,
    {
        if v[k] == *x {
            proof {
                assert(v.deep_view()[k as int] == x@);
            }
            return true;
        }
        k += 1;
    }
    proof {
        assert(!v.deep_view().contains(x@));
    }
    false
}

fn find_min_idx(fr: &Vec<QueueRequest>) -> (i: usize)
    requires
        fr.len() >= 1,
        forall|j: int| 0 <= j < fr@.len() ==> #[trigger] fr@[j].0.len() >= 1,
    ensures
        i < fr.len(),
        forall|j: int|
            0 <= j < fr@.len() ==> path_depth(#[trigger] fr@[j].0.deep_view()) >= path_depth(
                fr@[i as int].0.deep_view(),
            ),
        forall|j: int|
            0 <= j < i ==> path_depth(#[trigger] fr@[j].0.deep_view()) > path_depth(
                fr@[i as int].0.deep_view(),
            ),
{
    let mut best: usize = 0;
    let mut k: usize = 1;
    while k < fr.len()
        invariant
            fr.len() >= 1,
            best < k <= fr.len(),
            forall|j: int| 0 <= j < fr@.len() ==> #[trigger] fr@[j].0.len() >= 1,
            forall|j: int|
                0 <= j < k ==> path_depth(#[trigger] fr@[j].0.deep_view()) >= path_depth(
                    fr@[best as int].0.deep_view(),
                ),
            forall|j: int|
                0 <= j < best ==> path_depth(#[trigger] fr@[j].0.deep_view()) > path_depth(
                    fr@[best as int].0.deep_view(),
                ),
        decreases fr.len() - k,
    {
        if fr[k].depth() < fr[best].depth() {
            best = k;
        }
        k += 1;
    }
    best
}

} // verus!
