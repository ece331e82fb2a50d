use vstd::prelude::*;
use vstd::pervasive::VecAdditionalExecFns;

use crate::WikiUrl;

verus! {

/// One write-behind command for the persistence worker: record every
/// outbound link of `from` as one durable row per link.
pub enum DbOffloadCommand {
    WriteLinks { from: WikiUrl, links: Vec<WikiUrl> },
}

impl DbOffloadCommand {
    /// The page whose links the command writes.
    pub open spec fn page(self) -> Seq<char> {
        match self {
            DbOffloadCommand::WriteLinks { from, .. } => from@,
        }
    }

    /// The links the command writes, in order.
    pub open spec fn links(self) -> Seq<Seq<char>> {
        match self {
            DbOffloadCommand::WriteLinks { links, .. } => links.deep_view(),
        }
    }
}

/// One FNV-1a step: fold one byte into the running hash.
pub open spec fn fnv_step(h: u64, b: u8) -> u64 {
    vstd::wrapping::u64_specs::wrapping_mul(h ^ (b as u64), 0x100000001b3)
}

/// The FNV-1a hash after folding `bytes` into `h`, byte by byte in order.
pub open spec fn fnv_update(h: u64, bytes: Seq<u8>) -> u64
    decreases bytes.len(),
{
    if bytes.len() == 0 {
        h
    } else {
        fnv_step(fnv_update(h, bytes.drop_last()), bytes.last())
    }
}

/// A 64-bit FNV-1a hasher over byte strings.
pub struct FnvHasher(u64);

impl Default for FnvHasher {
    /// The fresh hasher starts from the FNV offset basis.
    fn default() -> (r: FnvHasher)
        ensures
            r.spec_hash() == 0xcbf29ce484222325u64,
    {
        FnvHasher(0xcbf29ce484222325)
    }
}

impl FnvHasher {
    /// The running hash value.
    pub closed spec fn spec_hash(self) -> u64 {
        self.0
    }

    /// Hand the running hash out.
    pub fn finish(&self) -> (h: u64)
        ensures
            h == self.spec_hash(),
    {
        self.0
    }

    /// Fold `bytes` into the running hash, byte by byte in order.
    pub fn write(&mut self, bytes: &[u8])
        ensures
            final(self).spec_hash() == fnv_update(old(self).spec_hash(), bytes@),
    {
        let mut hash = self.0;
        let n = bytes.len();
        let mut k: usize = 0;
        while k < n
            invariant
                n == bytes@.len(),
                k <= n,
                hash == fnv_update(old(self).spec_hash(), bytes@.subrange(0, k as int)),
            decreases n - k,
        {
            proof {
                assert(bytes@.subrange(0, k as int + 1).drop_last() =~= bytes@.subrange(
                    0,
                    k as int,
                ));
                assert(bytes@.subrange(0, k as int + 1).last() == bytes@[k as int]);
            }
            hash = (hash ^ (bytes[k] as u64)).wrapping_mul(0x100000001b3);
            k += 1;
        }
        proof {
            assert(bytes@.subrange(0, n as int) =~= bytes@);
        }
        self.0 = hash;
    }
}

/// There is an entry for `page` in the association list `s`.
pub open spec fn mem_has(s: Seq<(WikiUrl, Vec<WikiUrl>)>, page: Seq<char>) -> bool {
    exists|i: int| 0 <= i < s.len() && s[i].0@ == page
}

/// The links stored for `page` in `s`; meaningful only when `mem_has` holds.
pub open spec fn mem_at(s: Seq<(WikiUrl, Vec<WikiUrl>)>, page: Seq<char>) -> Seq<Seq<char>> {
    s[choose|i: int| 0 <= i < s.len() && s[i].0@ == page].1.deep_view()
}

/// Every page has at most one entry in the association list.
pub open spec fn unique_keys(s: Seq<(WikiUrl, Vec<WikiUrl>)>) -> bool {
    forall|i: int, j: int| 0 <= i < j < s.len() ==> s[i].0@ != s[j].0@
}

/// The links recorded for `page` among the durable rows, in row order,
/// duplicates included: one row is one discovered edge.
pub open spec fn row_links(rows: Seq<(WikiUrl, WikiUrl)>, page: Seq<char>) -> Seq<Seq<char>>
    decreases rows.len(),
{
    if rows.len() == 0 {
        Seq::empty()
    } else {
        let pre = row_links(rows.drop_last(), page);
        if rows.last().0@ == page {
            pre.push(rows.last().1@)
        } else {
            pre
        }
    }
}

proof fn lemma_row_links_push(rows: Seq<(WikiUrl, WikiUrl)>, r: (WikiUrl, WikiUrl), q: Seq<char>)
    ensures
        row_links(rows.push(r), q) == if r.0@ == q {
            row_links(rows, q).push(r.1@)
        } else {
            row_links(rows, q)
        },
{
    assert(rows.push(r).drop_last() =~= rows);
    assert(rows.push(r).last() == r);
}

proof fn lemma_mem_at_unique(s: Seq<(WikiUrl, Vec<WikiUrl>)>, page: Seq<char>, i: int)
    requires
        unique_keys(s),
        0 <= i < s.len(),
        s[i].0@ == page,
    ensures
        mem_has(s, page),
        mem_at(s, page) == s[i].1.deep_view(),
{
    assert(mem_has(s, page));
    let k = choose|k: int| 0 <= k < s.len() && s[k].0@ == page;
    assert(k == i);
}

/// The two-tier link cache: the in-memory tier (authoritative once
/// populated), the model of the durable tier as a table of (page, link)
/// rows, and the queue of write-behind commands awaiting the persistence
/// worker.
pub struct DbCache {
    in_mem: Vec<(WikiUrl, Vec<WikiUrl>)>,
    rows: Vec<(WikiUrl, WikiUrl)>,
    queue: Vec<DbOffloadCommand>,
}

impl DbCache {
    /// The memory tier never holds two entries for one page.
    pub closed spec fn wf(self) -> bool {
        unique_keys(self.in_mem@)
    }

    /// What the memory tier stores for `page`, if anything.
    pub closed spec fn mem_links(self, page: Seq<char>) -> Option<Seq<Seq<char>>> {
        if mem_has(self.in_mem@, page) {
            Some(mem_at(self.in_mem@, page))
        } else {
            None
        }
    }

    /// The links the durable tier holds for `page`, in row order.
    pub closed spec fn db_links(self, page: Seq<char>) -> Seq<Seq<char>> {
        row_links(self.rows@, page)
    }

    /// The pending write-behind commands, oldest first.
    pub closed spec fn queue_view(self) -> Seq<(Seq<char>, Seq<Seq<char>>)> {
        self.queue@.map_values(|c: DbOffloadCommand| (c.page(), c.links()))
    }

    /// What a lookup of `page` returns: the memory tier wins; on a memory
    /// miss a non-empty durable answer is served; otherwise the page is
    /// absent.
    pub open spec fn spec_lookup(self, page: Seq<char>) -> Option<Seq<Seq<char>>> {
        if self.mem_links(page) is Some {
            self.mem_links(page)
        } else if self.db_links(page).len() > 0 {
            Some(self.db_links(page))
        } else {
            None
        }
    }

    /// A fresh cache: both tiers and the command queue are empty.
    pub fn create() -> (c: DbCache)
        ensures
            c.wf(),
            forall|p: Seq<char>| #![auto] c.mem_links(p) is None,
            forall|p: Seq<char>| #![auto] c.db_links(p) == Seq::<Seq<char>>::empty(),
            c.queue_view() == Seq::<(Seq<char>, Seq<Seq<char>>)>::empty(),
    {
        let c = DbCache { in_mem: Vec::new(), rows: Vec::new(), queue: Vec::new() };
        proof {
            assert(c.queue_view() =~= Seq::<(Seq<char>, Seq<Seq<char>>)>::empty());
        }
        c
    }

    /// Store `links` for `page` in the memory tier, overwriting any earlier
    /// entry, and enqueue one write-behind command; the durable tier is not
    /// touched here.
    pub fn insert(&mut self, page: &WikiUrl, links: &Vec<WikiUrl>)
        requires
            old(self).wf(),
        ensures
            final(self).wf(),
            final(self).mem_links(page@) == Some(links.deep_view()),
            final(self).spec_lookup(page@) == Some(links.deep_view()),
            forall|q: Seq<char>| #![auto] q != page@ ==>
                final(self).mem_links(q) == old(self).mem_links(q),
            forall|q: Seq<char>| #![auto] final(self).db_links(q) == old(self).db_links(q),
            final(self).queue_view() == old(self).queue_view().push((page@, links.deep_view())),
    {
        let ghost pre = self.in_mem@;
        let entry = (page.clone(), links.clone());
        proof {
            assert(entry.1.deep_view() =~= links.deep_view());
        }
        match find_mem_index(&self.in_mem, page) {
            Some(i) => {
                self.in_mem.set(i, entry);
                proof {
                    let s = self.in_mem@;
                    assert forall|a: int, b: int| 0 <= a < b < s.len() implies s[a].0@ != s[b].0@ by {
                        assert(pre[a].0@ != pre[b].0@);
                    }
                    lemma_mem_at_unique(s, page@, i as int);
                    assert forall|q: Seq<char>| q != page@ implies
                        self.mem_links(q) == old(self).mem_links(q) by {
                        if mem_has(pre, q) {
                            let j = choose|j: int| 0 <= j < pre.len() && pre[j].0@ == q;
                            assert(s[j].0@ == q);
                            lemma_mem_at_unique(s, q, j);
                            lemma_mem_at_unique(pre, q, j);
                        } else {
                            assert forall|j: int| 0 <= j < s.len() implies s[j].0@ != q by {
                                if j != i {
                                    assert(pre[j].0@ != q);
                                }
                            }
                        }
                    }
                }
            },
            None => {
                self.in_mem.push(entry);
                proof {
                    let s = self.in_mem@;
                    let n = pre.len() as int;
                    assert forall|a: int, b: int| 0 <= a < b < s.len() implies s[a].0@ != s[b].0@ by {
                        if b < n {
                            assert(pre[a].0@ != pre[b].0@);
                        } else {
                            assert(pre[a].0@ != page@);
                        }
                    }
                    lemma_mem_at_unique(s, page@, n);
                    assert forall|q: Seq<char>| q != page@ implies
                        self.mem_links(q) == old(self).mem_links(q) by {
                        if mem_has(pre, q) {
                            let j = choose|j: int| 0 <= j < pre.len() && pre[j].0@ == q;
                            lemma_mem_at_unique(s, q, j);
                            lemma_mem_at_unique(pre, q, j);
                        }
                    }
                }
            },
        }
        self.queue.push(DbOffloadCommand::WriteLinks { from: page.clone(), links: links.clone() });
        proof {
            assert(final(self).queue_view() =~=
                old(self).queue_view().push((page@, links.deep_view())));
        }
    }

    /// Serve `page` from the cache: a memory hit is returned as stored; on
    /// a miss the durable rows for the page are collected and returned if
    /// there are any; otherwise the page is reported absent.
    pub fn fetch_from_cache(&self, page: &WikiUrl) -> (r: Option<Vec<WikiUrl>>)
        requires
            self.wf(),
        ensures
            match r {
                Some(v) => self.spec_lookup(page@) == Some(v.deep_view()),
                None => self.spec_lookup(page@) is None,
            },
    {
        match find_mem_index(&self.in_mem, page) {
            Some(i) => {
                let links = self.in_mem[i].1.clone();
                proof {
                    lemma_mem_at_unique(self.in_mem@, page@, i as int);
                    assert(links.deep_view() =~= self.in_mem@[i as int].1.deep_view());
                }
                Some(links)
            },
            None => {
                let mut links: Vec<WikiUrl> = Vec::new();
                let n = self.rows.len();
                let mut k: usize = 0;
                while k < n
                    invariant
                        n == self.rows.len(),
                        k <= n,
                        links.deep_view() =~= row_links(self.rows@.subrange(0, k as int), page@),
                    decreases n - k,
                {
                    let ghost prefix = self.rows@.subrange(0, k as int);
                    let ghost old_dv = links.deep_view();
                    proof {
                        assert(self.rows@.subrange(0, k as int + 1) =~=
                            prefix.push(self.rows@[k as int]));
                        lemma_row_links_push(prefix, self.rows@[k as int], page@);
                    }
                    if self.rows[k].0 == *page {
                        links.push(self.rows[k].1.clone());
                        proof {
                            assert(links.deep_view() =~= old_dv.push(self.rows@[k as int].1@));
                        }
                    }
                    k += 1;
                }
                proof {
                    assert(self.rows@.subrange(0, n as int) =~= self.rows@);
                }
                if links.len() == 0 {
                    None
                } else {
                    Some(links)
                }
            },
        }
    }

    /// Apply the oldest pending write-behind command, if there is one, by
    /// appending one durable row per link, in link order; this is the
    /// persistence worker's step, and commands apply in submission order.
    pub fn apply_next_offload(&mut self) -> (applied: bool)
        requires
            old(self).wf(),
        ensures
            final(self).wf(),
            forall|q: Seq<char>| #![auto] final(self).mem_links(q) == old(self).mem_links(q),
            !applied ==> *final(self) == *old(self) && old(self).queue_view().len() == 0,
            applied ==> old(self).queue_view().len() > 0
                && final(self).queue_view() == old(self).queue_view().drop_first()
                && final(self).db_links(old(self).queue_view()[0].0)
                    == old(self).db_links(old(self).queue_view()[0].0)
                        + old(self).queue_view()[0].1
                && forall|q: Seq<char>| #![auto] q != old(self).queue_view()[0].0 ==>
                    final(self).db_links(q) == old(self).db_links(q),
    {
        if self.queue.len() == 0 {
            return false;
        }
        let ghost pre_queue = old(self).queue_view();
        let cmd = self.queue.remove(0);
        proof {
            assert(self.queue@ =~= old(self).queue@.drop_first());
            assert(self.queue_view() =~= pre_queue.drop_first());
            assert(cmd.page() == pre_queue[0].0 && cmd.links() == pre_queue[0].1);
        }
        match cmd {
            DbOffloadCommand::WriteLinks { from, links } => {
                let ghost pre_rows = self.rows@;
                let m = links.len();
                let mut k: usize = 0;
                while k < m
                    invariant
                        m == links.len(),
                        k <= m,
                        self.queue@ == old(self).queue@.drop_first(),
                        self.in_mem@ == old(self).in_mem@,
                        row_links(self.rows@, from@) =~=
                            row_links(pre_rows, from@) + links.deep_view().subrange(0, k as int),
                        forall|q: Seq<char>| #![auto] q != from@ ==>
                            row_links(self.rows@, q) == row_links(pre_rows, q),
                    decreases m - k,
                {
                    let ghost rows_before = self.rows@;
                    let link = links[k].clone();
                    self.rows.push((from.clone(), link));
                    proof {
                        assert(self.rows@.drop_last() =~= rows_before);
                        assert(links.deep_view().subrange(0, k as int + 1) =~=
                            links.deep_view().subrange(0, k as int).push(links@[k as int]@));
                        assert(row_links(self.rows@, from@) =~=
                            row_links(pre_rows, from@) + links.deep_view().subrange(0, k as int + 1));
                    }
                    k += 1;
                }
                proof {
                    assert(links.deep_view().subrange(0, m as int) =~= links.deep_view());
                    assert(row_links(self.rows@, from@) =~=
                        row_links(pre_rows, from@) + pre_queue[0].1);
                }
            },
        }
        true
    }
}

fn find_mem_index(v: &Vec<(WikiUrl, Vec<WikiUrl>)>, page: &WikiUrl) -> (r: Option<usize>)
    ensures
        match r {
            Some(i) => i < v.len() && v@[i as int].0@ == page@,
            None => forall|i: int| 0 <= i < v.len() ==> v@[i].0@ != page@,
        },
{
    let n = v.len();
    let mut k: usize = 0;
    while k < n
        invariant
            n == v.len(),
            k <= n,
            forall|i: int| 0 <= i < k ==> v@[i].0@ != page@,
        decreases n - k,
    {
        if v[k].0 == *page {
            return Some(k);
        }
        k += 1;
    }
    None
}

/// Look a page up in the given cache, memory tier first, then the durable
/// tier; absent in both means none.
pub fn fetch_from_cache(cache: &DbCache, page: &WikiUrl) -> (r: Option<Vec<WikiUrl>>)
    requires
        cache.wf(),
    ensures
        match r {
            Some(v) => cache.spec_lookup(page@) == Some(v.deep_view()),
            None => cache.spec_lookup(page@) is None,
        },
{
    cache.fetch_from_cache(page)
}

/// Record freshly discovered links for a page: the memory tier sees them
/// at once (a lookup right after returns exactly `links`), and a
/// write-behind command joins the persistence queue.
pub fn insert_into_cache(cache: &mut DbCache, page: &WikiUrl, links: &Vec<WikiUrl>)
    requires
        old(cache).wf(),
    ensures
        final(cache).wf(),
        final(cache).spec_lookup(page@) == Some(links.deep_view()),
        final(cache).mem_links(page@) == Some(links.deep_view()),
        forall|q: Seq<char>| #![auto] q != page@ ==>
            final(cache).mem_links(q) == old(cache).mem_links(q),
        forall|q: Seq<char>| #![auto] final(cache).db_links(q) == old(cache).db_links(q),
        final(cache).queue_view() == old(cache).queue_view().push((page@, links.deep_view())),
{
    cache.insert(page, links);
}

/// Drop the whole memory tier; the durable tier and the pending commands
/// stay as they are.
pub fn clear_mem(cache: &mut DbCache)
    requires
        old(cache).wf(),
    ensures
        final(cache).wf(),
        forall|q: Seq<char>| #![auto] final(cache).mem_links(q) is None,
        forall|q: Seq<char>| #![auto] final(cache).db_links(q) == old(cache).db_links(q),
        final(cache).queue_view() == old(cache).queue_view(),
{
    cache.clear_mem_tier();
}

/// Invalidate one page: its memory entry goes away and every durable row
/// for it is deleted, so a lookup right after reports it absent.
pub fn clear_for_page(cache: &mut DbCache, page: &WikiUrl)
    requires
        old(cache).wf(),
    ensures
        final(cache).wf(),
        final(cache).spec_lookup(page@) is None,
        forall|q: Seq<char>| #![auto] q != page@ ==>
            final(cache).mem_links(q) == old(cache).mem_links(q),
        forall|q: Seq<char>| #![auto] q != page@ ==>
            final(cache).db_links(q) == old(cache).db_links(q),
        final(cache).queue_view() == old(cache).queue_view(),
{
    cache.clear_page(page);
}

impl DbCache {
    /// Empty the memory tier only.
    pub fn clear_mem_tier(&mut self)
        requires
            old(self).wf(),
        ensures
            final(self).wf(),
            forall|q: Seq<char>| #![auto] final(self).mem_links(q) is None,
            forall|q: Seq<char>| #![auto] final(self).db_links(q) == old(self).db_links(q),
            final(self).queue_view() == old(self).queue_view(),
    {
        self.in_mem.clear();
    }

    /// Remove the memory entry for `page` and delete its durable rows.
    pub fn clear_page(&mut self, page: &WikiUrl)
        requires
            old(self).wf(),
        ensures
            final(self).wf(),
            final(self).spec_lookup(page@) is None,
            forall|q: Seq<char>| #![auto] q != page@ ==>
                final(self).mem_links(q) == old(self).mem_links(q),
            forall|q: Seq<char>| #![auto] q != page@ ==>
                final(self).db_links(q) == old(self).db_links(q),
            final(self).queue_view() == old(self).queue_view(),
    {
        let ghost pre = self.in_mem@;
        match find_mem_index(&self.in_mem, page) {
            Some(i) => {
                self.in_mem.remove(i);
                proof {
                    let s = self.in_mem@;
                    assert forall|a: int, b: int| 0 <= a < b < s.len() implies s[a].0@ != s[b].0@ by {
                        let a0 = if a < i as int { a } else { a + 1 };
                        let b0 = if b < i as int { b } else { b + 1 };
                        assert(s[a] == pre[a0] && s[b] == pre[b0]);
                        assert(pre[a0].0@ != pre[b0].0@);
                    }
                    assert forall|j: int| 0 <= j < s.len() implies s[j].0@ != page@ by {
                        let j0 = if j < i as int { j } else { j + 1 };
                        assert(s[j] == pre[j0]);
                        if j0 != i as int {
                            assert(pre[j0].0@ != pre[i as int].0@);
                        }
                    }
                    assert forall|q: Seq<char>| q != page@ implies
                        self.mem_links(q) == old(self).mem_links(q) by {
                        if mem_has(pre, q) {
                            let j0 = choose|j0: int| 0 <= j0 < pre.len() && pre[j0].0@ == q;
                            let j = if j0 < i as int { j0 } else { j0 - 1 };
                            assert(s[j] == pre[j0]);
                            lemma_mem_at_unique(s, q, j);
                            lemma_mem_at_unique(pre, q, j0);
                        } else {
                            assert forall|j: int| 0 <= j < s.len() implies s[j].0@ != q by {
                                let j0 = if j < i as int { j } else { j + 1 };
                                assert(s[j] == pre[j0]);
                            }
                        }
                    }
                }
            },
            None => {},
        }
        let ghost pre_rows = self.rows@;
        let mut kept: Vec<(WikiUrl, WikiUrl)> = Vec::new();
        let n = self.rows.len();
        let mut k: usize = 0;
        while k < n
            invariant
                n == self.rows.len(),
                self.rows@ == pre_rows,
                k <= n,
                row_links(kept@, page@) =~= Seq::<Seq<char>>::empty(),
                forall|q: Seq<char>| #![auto] q != page@ ==>
                    row_links(kept@, q) == row_links(pre_rows.subrange(0, k as int), q),
            decreases n - k,
        {
            let ghost kept_before = kept@;
            proof {
                assert(pre_rows.subrange(0, k as int + 1) =~=
                    pre_rows.subrange(0, k as int).push(pre_rows[k as int]));
                assert forall|q: Seq<char>| #![auto] true implies
                    row_links(pre_rows.subrange(0, k as int + 1), q) == if pre_rows[k as int].0@ == q {
                        row_links(pre_rows.subrange(0, k as int), q).push(pre_rows[k as int].1@)
                    } else {
                        row_links(pre_rows.subrange(0, k as int), q)
                    } by {
                    lemma_row_links_push(pre_rows.subrange(0, k as int), pre_rows[k as int], q);
                }
            }
            if !(self.rows[k].0 == *page) {
                let row = (self.rows[k].0.clone(), self.rows[k].1.clone());
                kept.push(row);
                proof {
                    assert(kept@ =~= kept_before.push(row));
                    assert(row.0@ == pre_rows[k as int].0@ && row.1@ == pre_rows[k as int].1@);
                    assert forall|q: Seq<char>| #![auto] true implies
                        row_links(kept@, q) == if row.0@ == q {
                            row_links(kept_before, q).push(row.1@)
                        } else {
                            row_links(kept_before, q)
                        } by {
                        lemma_row_links_push(kept_before, row, q);
                    }
                }
            }
            k += 1;
        }
        proof {
            assert(pre_rows.subrange(0, n as int) =~= pre_rows);
        }
        self.rows = kept;
    }
}

} // verus!
