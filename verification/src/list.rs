//! Intrusive FIFO queues over the store: a list holds only its two endpoint
//! keys; the chain itself lives in the link fields of the stream objects,
//! selected by a link capability. One stream may sit in several queues at
//! once, one per capability.

use vstd::prelude::*;

use crate::store::Store;
use crate::stream::{lemma_capabilities_independent, Key, Next, PendingReset, PendingSend, Stream};

verus! {

/// A non-empty queue's endpoints.
#[derive(Debug, Clone, Copy)]
pub struct Indices {
    pub head: Key,
    pub tail: Key,
}

/// An intrusive FIFO queue. It owns none of its elements: the store's arena
/// does. The ghost chain records, in order, the arena keys threaded through
/// the capability's link fields.
pub struct List {
    indices: Option<Indices>,
    chain: Ghost<Seq<usize>>,
}

/// The keys `q` form, under capability `N`, a well-formed chain through the
/// arena contents `m`: distinct occupied keys, each link naming the next key
/// and the last link empty.
pub open spec fn chain_wf<N: Next>(q: Seq<usize>, m: Map<usize, Stream>) -> bool {
    &&& q.no_duplicates()
    &&& forall|i: int| 0 <= i < q.len() ==> m.dom().contains(#[trigger] q[i])
    &&& forall|i: int| #![trigger m[q[i]]]
        0 <= i < q.len() - 1 ==> N::spec_next(m[q[i]]) == Some(Key(q[i + 1]))
    &&& q.len() > 0 ==> N::spec_next(m[q[q.len() - 1]]) is None
}

impl View for List {
    type V = Seq<usize>;

    closed spec fn view(&self) -> Seq<usize> {
        self.chain@
    }
}

impl List {
    /// The endpoints agree with the chain: an empty option for an empty
    /// chain, else the chain's first and last keys.
    pub closed spec fn inv(self) -> bool {
        match self.indices {
            None => self.chain@.len() == 0,
            Some(ix) => self.chain@.len() > 0 && ix.head.0 == self.chain@[0] && ix.tail.0
                == self.chain@[self.chain@.len() - 1],
        }
    }

    /// Well-formed as a queue of capability `N` over arena contents `m`.
    pub open spec fn wf<N: Next>(self, m: Map<usize, Stream>) -> bool {
        &&& self.inv()
        &&& chain_wf::<N>(self@, m)
    }

    pub fn new() -> (r: List)
        ensures
            r.inv(),
            r@ == Seq::<usize>::empty(),
    {
        List { indices: None, chain: Ghost(Seq::empty()) }
    }

    pub fn is_empty(&self) -> (r: bool)
        requires
            self.inv(),
        ensures
            r <==> self@.len() == 0,
    {
        self.indices.is_none()
    }

    /// Empty this list and hand its whole chain, endpoints included, to a
    /// fresh list: a full ownership transfer of the queue's contents.
    pub fn take(&mut self) -> (r: List)
        requires
            old(self).inv(),
        ensures
            final(self).inv(),
            final(self)@ == Seq::<usize>::empty(),
            r.inv(),
            r@ == old(self)@,
    {
        let ix = self.indices;
        let g: Ghost<Seq<usize>> = self.chain;
        self.indices = None;
        self.chain = Ghost(Seq::empty());
        List { indices: ix, chain: g }
    }

    /// Append the stream referenced by `stream` to the tail. The node must
    /// not already sit in this queue, and its link must be clear.
    pub fn push<N: Next>(&mut self, store: &mut Store, stream: &crate::store::Ptr)
        requires
            old(self).wf::<N>(old(store).streams()),
            old(store).wf(),
            old(store).streams().dom().contains(stream@.0),
            N::spec_next(old(store).streams()[stream@.0]) is None,
            !old(self)@.contains(stream@.0),
        ensures
            final(self).wf::<N>(final(store).streams()),
            final(self)@ == old(self)@.push(stream@.0),
            final(store).wf(),
            final(store).ids() == old(store).ids(),
            final(store).streams().dom() == old(store).streams().dom(),
            old(self)@.len() == 0 ==> final(store).streams() == old(store).streams(),
            old(self)@.len() > 0 ==> final(store).streams() == old(store).streams().insert(
                old(self)@[old(self)@.len() - 1],
                N::spec_set_next(
                    old(store).streams()[old(self)@[old(self)@.len() - 1]],
                    Some(stream@),
                ),
            ),
    {
        let key = stream.key();
        let ghost q = self.chain@;
        let ghost m0 = old(store).streams();
        match self.indices {
            Some(ix) => {
                let mut tail_stream = *store.get(ix.tail);
                N::set_next(&mut tail_stream, Some(key));
                store.set(ix.tail, tail_stream);
                self.indices = Some(Indices { head: ix.head, tail: key });
                self.chain = Ghost(self.chain@.push(key.0));
                proof {
                    let m2 = store.streams();
                    let q2 = self.chain@;
                    N::lemma_set_get(m0[ix.tail.0], Some(key));
                    assert(store.streams().dom() =~= m0.dom());
                    assert forall|i: int, j: int| 0 <= i < j < q2.len() implies q2[i] != q2[j] by {
                        if j < q.len() {
                            assert(q.no_duplicates());
                        } else {
                            assert(q[i] == q2[i]);
                            assert(q.contains(q[i]));
                        }
                    }
                    assert(q2.no_duplicates());
                    assert forall|i: int| 0 <= i < q2.len() - 1 implies N::spec_next(
                        m2[#[trigger] q2[i]],
                    ) == Some(Key(q2[i + 1])) by {
                        if i < q.len() - 1 {
                            assert(q2[i] == q[i]);
                            assert(q2[i] != q[q.len() - 1]);
                            assert(m2[q2[i]] == m0[q[i]]);
                        } else {
                            assert(i == q.len() - 1);
                            assert(q2[i] == ix.tail.0);
                        }
                    }
                    assert(q2[q2.len() - 1] == key.0);
                    assert(key.0 != ix.tail.0) by {
                        assert(q.contains(q[q.len() - 1]));
                    }
                    assert(m2[key.0] == m0[key.0]);
                }
            },
            None => {
                self.indices = Some(Indices { head: key, tail: key });
                self.chain = Ghost(self.chain@.push(key.0));
                proof {
                    assert(self.chain@ =~= seq![key.0]);
                }
            },
        }
    }

    /// Remove and return the head node; nothing if the queue is empty. A
    /// non-tail head whose link is missing would be a structural invariant
    /// violation, which well-formedness excludes.
    pub fn pop<N: Next>(&mut self, store: &mut Store) -> (r: Option<crate::store::Ptr>)
        requires
            old(self).wf::<N>(old(store).streams()),
            old(store).wf(),
        ensures
            final(self).wf::<N>(final(store).streams()),
            final(store).wf(),
            final(store).ids() == old(store).ids(),
            final(store).streams().dom() == old(store).streams().dom(),
            match r {
                None => old(self)@.len() == 0 && final(self)@ == old(self)@
                    && final(store).streams() == old(store).streams(),
                Some(p) => {
                    &&& old(self)@.len() > 0
                    &&& p@.0 == old(self)@[0]
                    &&& final(self)@ == old(self)@.subrange(1, old(self)@.len() as int)
                    &&& (old(self)@.len() == 1 ==> final(store).streams() == old(store).streams())
                    &&& (old(self)@.len() > 1 ==> final(store).streams()
                        == old(store).streams().insert(
                        old(self)@[0],
                        N::spec_set_next(old(store).streams()[old(self)@[0]], None),
                    ))
                },
            },
    {
        let ghost q = self.chain@;
        let ghost m0 = old(store).streams();
        match self.indices {
            Some(ix) => {
                if ix.head.0 == ix.tail.0 {
                    proof {
                        if q.len() > 1 {
                            assert(q[0] == q[q.len() - 1]);
                            assert(false);
                        }
                    }
                    self.indices = None;
                    self.chain = Ghost(Seq::empty());
                    proof {
                        assert(self.chain@ =~= q.subrange(1, q.len() as int));
                    }
                    Some(store.resolve(ix.head))
                } else {
                    proof {
                        if q.len() == 1 {
                            assert(false);
                        }
                    }
                    let mut hs = *store.get(ix.head);
                    let nxt = N::take_next(&mut hs);
                    store.set(ix.head, hs);
                    let new_head = match nxt {
                        Some(k) => k,
                        None => {
                            proof {
                                assert(false);
                            }
                            ix.head
                        },
                    };
                    self.indices = Some(Indices { head: new_head, tail: ix.tail });
                    self.chain = Ghost(self.chain@.subrange(1, self.chain@.len() as int));
                    proof {
                        let m2 = store.streams();
                        let q2 = self.chain@;
                        N::lemma_set_get(m0[q[0]], None);
                        assert(store.streams().dom() =~= m0.dom());
                        assert forall|i: int, j: int| 0 <= i < j < q2.len() implies q2[i]
                            != q2[j] by {
                            assert(q2[i] == q[i + 1]);
                            assert(q2[j] == q[j + 1]);
                        }
                        assert(q2.no_duplicates());
                        assert forall|i: int| 0 <= i < q2.len() implies m2[#[trigger] q2[i]] == m0[q[
                            i + 1
                        ]] by {
                            assert(q2[i] == q[i + 1]);
                            assert(q[i + 1] != q[0]);
                        }
                        assert(q2[0] == q[1]);
                        assert(new_head.0 == q[1]);
                        assert forall|i: int| 0 <= i < q2.len() - 1 implies N::spec_next(
                            m2[#[trigger] q2[i]],
                        ) == Some(Key(q2[i + 1])) by {
                            assert(m2[q2[i]] == m0[q[i + 1]]);
                            assert(q2[i + 1] == q[i + 2]);
                        }
                        assert(q2[q2.len() - 1] == q[q.len() - 1]);
                    }
                    Some(store.resolve(ix.head))
                }
            },
            None => None,
        }
    }
}

/// The subsequence of `q` selected by the verdicts `keep`.
pub open spec fn filtered(q: Seq<usize>, keep: Seq<bool>) -> Seq<usize>
    decreases q.len(),
{
    if q.len() == 0 || keep.len() == 0 {
        Seq::empty()
    } else if keep[keep.len() - 1] {
        filtered(q.drop_last(), keep.drop_last()).push(q[q.len() - 1])
    } else {
        filtered(q.drop_last(), keep.drop_last())
    }
}

proof fn lemma_filtered_push(q: Seq<usize>, keep: Seq<bool>, x: usize, b: bool)
    requires
        q.len() == keep.len(),
    ensures
        filtered(q.push(x), keep.push(b)) == if b {
            filtered(q, keep).push(x)
        } else {
            filtered(q, keep)
        },
{
    assert(q.push(x).drop_last() =~= q);
    assert(keep.push(b).drop_last() =~= keep);
}

/// The exact outcome of one `retain` pass over a chain `q` through arena
/// contents `m0`, given the per-element verdicts `keep`: the new chain `q2`
/// is the kept subsequence; every dropped node's link is cleared; every kept
/// node keeps its old value apart from its link, which now names its
/// successor in `q2` (or nothing, for the new tail); every other arena slot
/// is untouched.
pub open spec fn retain_describes<N: Next>(
    q: Seq<usize>,
    m0: Map<usize, Stream>,
    keep: Seq<bool>,
    q2: Seq<usize>,
    m2: Map<usize, Stream>,
) -> bool {
    &&& keep.len() == q.len()
    &&& q2 == filtered(q, keep)
    &&& forall|j: int|
        0 <= j < q.len() && !keep[j] ==> m2[#[trigger] q[j]] == N::spec_set_next(m0[q[j]], None)
    &&& forall|a: int| #![trigger m0[q2[a]]]
        0 <= a < q2.len() ==> m2[q2[a]] == N::spec_set_next(
            m0[q2[a]],
            if a < q2.len() - 1 {
                Some(Key(q2[a + 1]))
            } else {
                None
            },
        )
    &&& forall|k: usize| #[trigger] m0.dom().contains(k) && !q.contains(k) ==> m2[k] == m0[k]
}

proof fn lemma_strictly_increasing(pos: Seq<int>, a: int, b: int)
    requires
        forall|c: int| #![trigger pos[c], pos[c + 1]]
            0 <= c < pos.len() - 1 ==> pos[c] < pos[c + 1],
        0 <= a < b < pos.len(),
    ensures
        pos[a] < pos[b],
    decreases b - a,
{
    if a + 1 == b {
        assert(pos[a] < pos[a + 1]);
    } else {
        lemma_strictly_increasing(pos, a, b - 1);
        assert(pos[b - 1] < pos[b - 1 + 1]);
    }
}

#[verifier::rlimit(100)]
proof fn lemma_splice_step<N: Next>(
    q: Seq<usize>,
    m0: Map<usize, Stream>,
    kp: Seq<bool>,
    ks: Seq<usize>,
    pos: Seq<int>,
    ms: Map<usize, Stream>,
    m2: Map<usize, Stream>,
    i: int,
    p: usize,
    nxt: Option<Key>,
)
    requires
        chain_wf::<N>(q, m0),
        0 <= i < q.len(),
        kp.len() == i + 1,
        !kp[i as int],
        pos.len() == ks.len(),
        pos.len() > 0,
        forall|a: int|
            0 <= a < pos.len() ==> 0 <= #[trigger] pos[a] < i && kp[pos[a]] && q[pos[a]] == ks[a],
        forall|a: int| #![trigger pos[a], pos[a + 1]]
            0 <= a < pos.len() - 1 ==> pos[a] < pos[a + 1],
        p == ks[ks.len() - 1],
        nxt == N::spec_next(m0[q[i]]),
        forall|j: int| i <= j < q.len() ==> ms[#[trigger] q[j]] == m0[q[j]],
        forall|j: int|
            0 <= j < i && !kp[j] ==> ms[#[trigger] q[j]] == N::spec_set_next(m0[q[j]], None),
        forall|a: int| #![trigger m0[ks[a]]]
            0 <= a < ks.len() - 1 ==> ms[ks[a]] == N::spec_set_next(
                m0[ks[a]],
                Some(Key(ks[a + 1])),
            ),
        ms[p] == N::spec_set_next(m0[p], Some(Key(q[i]))),
        forall|k: usize| #[trigger] m0.dom().contains(k) && !q.contains(k) ==> ms[k] == m0[k],
        m2 == ms.insert(q[i], N::spec_set_next(m0[q[i]], None)).insert(
            p,
            N::spec_set_next(ms[p], nxt),
        ),
    ensures
        m2[p] == N::spec_set_next(m0[p], nxt),
        forall|j: int| i + 1 <= j < q.len() ==> m2[#[trigger] q[j]] == m0[q[j]],
        forall|j: int|
            0 <= j < i + 1 && !kp[j] ==> m2[#[trigger] q[j]] == N::spec_set_next(m0[q[j]], None),
        forall|a: int| #![trigger m0[ks[a]]]
            0 <= a < ks.len() - 1 ==> m2[ks[a]] == N::spec_set_next(
                m0[ks[a]],
                Some(Key(ks[a + 1])),
            ),
        forall|k: usize| #[trigger] m0.dom().contains(k) && !q.contains(k) ==> m2[k] == m0[k],
{
    let la = pos.len() - 1;
    assert(q[pos[la]] == p);
    N::lemma_set_set(m0[p], Some(Key(q[i])), nxt);
    assert(p != q[i]) by {
        assert(pos[la] < i);
    }
    assert forall|j: int| i + 1 <= j < q.len() implies m2[#[trigger] q[j]] == m0[q[j]] by {
        assert(q[j] != q[i]);
        assert(q[j] != q[pos[la]]);
    }
    assert forall|j: int| 0 <= j < i + 1 && !kp[j] implies m2[#[trigger] q[j]] == N::spec_set_next(
        m0[q[j]],
        None,
    ) by {
        if j < i {
            assert(q[j] != q[i]);
            if q[j] == p {
                assert(q[j] == q[pos[la]]);
                assert(j == pos[la]);
                assert(kp[j]);
            }
        }
    }
    assert forall|a: int| 0 <= a < ks.len() - 1 implies m2[#[trigger] ks[a]] == N::spec_set_next(
        m0[ks[a]],
        Some(Key(ks[a + 1])),
    ) by {
        assert(q[pos[a]] == ks[a]);
        lemma_strictly_increasing(pos, a, la);
        assert(ks[a] != q[pos[la]]);
        assert(ks[a] != q[i]);
    }
    assert forall|k: usize|
        #[trigger] m0.dom().contains(k) && !q.contains(k) implies m2[k] == m0[k] by {
        assert(q.contains(q[i]));
        assert(q.contains(q[pos[la]]));
    }
}

impl List {
    /// One forward pass over the chain: keep the nodes for which `f` answers
    /// true, splice the rest out (clearing their links), and preserve the
    /// relative order of the kept nodes.
    #[verifier::rlimit(100)]
    #[verifier::spinoff_prover]
    pub fn retain<N: Next, F: Fn(Stream) -> bool>(&mut self, store: &mut Store, f: F)
        requires
            old(self).wf::<N>(old(store).streams()),
            old(store).wf(),
            forall|s: Stream| #[trigger] f.requires((s,)),
        ensures
            final(self).wf::<N>(final(store).streams()),
            final(store).wf(),
            final(store).ids() == old(store).ids(),
            final(store).streams().dom() == old(store).streams().dom(),
            exists|keep: Seq<bool>|
                {
                    &&& (forall|j: int|
                        0 <= j < keep.len() ==> f.ensures(
                            (old(store).streams()[old(self)@[j]],),
                            #[trigger] keep[j],
                        ))
                    &&& retain_describes::<N>(
                        old(self)@,
                        old(store).streams(),
                        keep,
                        final(self)@,
                        final(store).streams(),
                    )
                },
    {
        let ghost q = self.chain@;
        let ghost m0 = old(store).streams();
        match self.indices {
            None => {
                proof {
                    let keep = Seq::<bool>::empty();
                    assert(self.chain@ =~= filtered(q, keep));
                    assert(retain_describes::<N>(q, m0, keep, self.chain@, store.streams()));
                }
            },
            Some(ix) => {
                let mut idxs = ix;
                let mut prev: Option<Key> = None;
                let mut curr: Key = ix.head;
                let ghost mut i: int = 0;
                let ghost mut kp: Seq<bool> = Seq::empty();
                let ghost mut ks: Seq<usize> = Seq::empty();
                let ghost mut pos: Seq<int> = Seq::empty();
                let mut emptied = false;
                loop
                    invariant_except_break
                        forall|s: Stream| #[trigger] f.requires((s,)),
                        chain_wf::<N>(q, m0),
                        q.len() > 0,
                        q == old(self)@,
                        m0 == old(store).streams(),
                        *self == *old(self),
                        store.wf(),
                        store.ids() == old(store).ids(),
                        store.streams().dom() == m0.dom(),
                        forall|k: usize|
                            #[trigger] m0.dom().contains(k) && !q.contains(k)
                                ==> store.streams()[k] == m0[k],
                        !emptied,
                        0 <= i < q.len(),
                        kp.len() == i,
                        curr.0 == q[i],
                        forall|j: int| 0 <= j < i ==> f.ensures((m0[q[j]],), #[trigger] kp[j]),
                        ks == filtered(q.subrange(0, i), kp),
                        pos.len() == ks.len(),
                        forall|a: int|
                            0 <= a < pos.len() ==> 0 <= #[trigger] pos[a] < i && kp[pos[a]]
                                && q[pos[a]] == ks[a],
                        forall|a: int| #![trigger pos[a], pos[a + 1]]
                            0 <= a < pos.len() - 1 ==> pos[a] < pos[a + 1],
                        forall|j: int| 0 <= j < i && #[trigger] kp[j] ==> pos.contains(j),
                        ks.no_duplicates(),
                        forall|j: int|
                            i <= j < q.len() ==> store.streams()[#[trigger] q[j]] == m0[q[j]],
                        forall|j: int|
                            0 <= j < i && !kp[j] ==> store.streams()[#[trigger] q[j]]
                                == N::spec_set_next(m0[q[j]], None),
                        forall|a: int| #![trigger m0[ks[a]]]
                            0 <= a < ks.len() - 1 ==> store.streams()[ks[a]]
                                == N::spec_set_next(m0[ks[a]], Some(Key(ks[a + 1]))),
                        match prev {
                            None => ks.len() == 0 && idxs.head.0 == q[i],
                            Some(p) => ks.len() > 0 && p.0 == ks[ks.len() - 1]
                                && store.streams()[p.0] == N::spec_set_next(
                                m0[p.0],
                                Some(Key(q[i])),
                            ) && idxs.head.0 == ks[0],
                        },
                        idxs.tail.0 == q[q.len() - 1],
                    ensures
                        store.wf(),
                        store.ids() == old(store).ids(),
                        store.streams().dom() == m0.dom(),
                        *self == *old(self),
                        forall|k: usize|
                            #[trigger] m0.dom().contains(k) && !q.contains(k)
                                ==> store.streams()[k] == m0[k],
                        kp.len() == q.len(),
                        forall|j: int| 0 <= j < q.len() ==> f.ensures((m0[q[j]],), #[trigger] kp[j]),
                        ks == filtered(q, kp),
                        forall|j: int|
                            0 <= j < q.len() && !kp[j] ==> store.streams()[#[trigger] q[j]]
                                == N::spec_set_next(m0[q[j]], None),
                        forall|a: int| #![trigger m0[ks[a]]]
                            0 <= a < ks.len() ==> store.streams()[ks[a]] == N::spec_set_next(
                                m0[ks[a]],
                                if a < ks.len() - 1 {
                                    Some(Key(ks[a + 1]))
                                } else {
                                    None
                                },
                            ),
                        ks.no_duplicates(),
                        forall|a: int| 0 <= a < ks.len() ==> q.contains(#[trigger] ks[a]),
                        !emptied ==> ks.len() > 0,
                        !emptied ==> idxs.head.0 == ks[0],
                        !emptied ==> idxs.tail.0 == ks[ks.len() - 1],
                        emptied ==> ks.len() == 0,
                    decreases q.len() - i,
                {
                    let ghost ms = store.streams();
                    proof {
                        assert(q.contains(q[i]));
                    }
                    let st = *store.get(curr);
                    let keep_it = f(st);
                    if keep_it {
                        proof {
                            let kp0 = kp;
                            let ks0 = ks;
                            let pos0 = pos;
                            kp = kp.push(keep_it);
                            N::lemma_set_same(m0[curr.0]);
                            assert forall|a: int| 0 <= a < ks0.len() implies ks0[a] != curr.0 by {
                                assert(q[pos[a]] == ks0[a]);
                            }
                            ks = ks.push(curr.0);
                            pos = pos.push(i);
                            assert(q.subrange(0, i + 1) =~= q.subrange(0, i).push(q[i]));
                            lemma_filtered_push(q.subrange(0, i), kp0, q[i], keep_it);
                            assert(filtered(q.subrange(0, i + 1), kp) == ks);
                            assert forall|j: int| 0 <= j < i + 1 && #[trigger] kp[j] implies pos.contains(
                                j,
                            ) by {
                                if j == i {
                                    assert(pos[pos.len() - 1] == i);
                                } else {
                                    let a = choose|a: int| 0 <= a < pos0.len() && pos0[a] == j;
                                    assert(pos[a] == j);
                                }
                            }
                        }
                        let nxt = N::next(&st);
                        match nxt {
                            Some(next_key) => {
                                proof {
                                    if i == q.len() - 1 {
                                        assert(false);
                                    }
                                    assert(nxt == Some(Key(q[i + 1])));
                                    assert(store.streams()[q[i]] == N::spec_set_next(
                                        m0[q[i]],
                                        Some(Key(q[i + 1])),
                                    ));
                                }
                                prev = Some(curr);
                                curr = next_key;
                                proof {
                                    i = i + 1;
                                }
                            },
                            None => {
                                proof {
                                    if i < q.len() - 1 {
                                        assert(false);
                                    }
                                    assert(q.subrange(0, i + 1) =~= q);
                                    assert(store.streams()[q[i]] == N::spec_set_next(
                                        m0[q[i]],
                                        None,
                                    ));
                                    assert forall|a: int| 0 <= a < ks.len() implies q.contains(
                                        #[trigger] ks[a],
                                    ) by {
                                        assert(q[pos[a]] == ks[a]);
                                    }
                                }
                                break ;
                            },
                        }
                    } else {
                        proof {
                            let kp0 = kp;
                            kp = kp.push(keep_it);
                            assert(q.subrange(0, i + 1) =~= q.subrange(0, i).push(q[i]));
                            lemma_filtered_push(q.subrange(0, i), kp0, q[i], keep_it);
                            assert(filtered(q.subrange(0, i + 1), kp) == ks);
                        }
                        let mut cs = st;
                        let nxt = N::take_next(&mut cs);
                        store.set(curr, cs);
                        proof {
                            assert(store.streams().dom() =~= m0.dom());
                            if i == q.len() - 1 {
                                assert(N::spec_next(m0[q[i]]) is None);
                            } else {
                                assert(N::spec_next(m0[q[i]]) == Some(Key(q[i + 1])));
                            }
                            assert forall|a: int| 0 <= a < ks.len() implies ks[a] != curr.0 by {
                                assert(q[pos[a]] == ks[a]);
                            }
                        }
                        match prev {
                            Some(p) => {
                                proof {
                                    let la = pos.len() - 1;
                                    assert(p.0 == ks[la]);
                                    assert(ks[la] == q[pos[la]]);
                                    assert(m0.dom().contains(q[pos[la]]));
                                }
                                let mut ps = *store.get(p);
                                N::set_next(&mut ps, nxt);
                                store.set(p, ps);
                                proof {
                                    lemma_splice_step::<N>(
                                        q,
                                        m0,
                                        kp,
                                        ks,
                                        pos,
                                        ms,
                                        store.streams(),
                                        i,
                                        p.0,
                                        nxt,
                                    );
                                    assert(store.streams().dom() =~= m0.dom());
                                }
                                match nxt {
                                    Some(nk) => {
                                        curr = nk;
                                        proof {
                                            i = i + 1;
                                        }
                                    },
                                    None => {
                                        idxs.tail = p;
                                        proof {
                                            assert(i == q.len() - 1);
                                            assert(q.subrange(0, i + 1) =~= q);
                                            assert forall|a: int| 0 <= a < ks.len() implies q.contains(
                                                #[trigger] ks[a],
                                            ) by {
                                                assert(q[pos[a]] == ks[a]);
                                            }
                                        }
                                        break ;
                                    },
                                }
                            },
                            None => {
                                proof {
                                    assert(pos.len() == 0);
                                    assert forall|j: int| 0 <= j < i + 1 implies !(#[trigger] kp[j]) by {
                                        if 0 <= j < i && kp[j] {
                                            assert(pos.contains(j));
                                        }
                                    }
                                    assert forall|j: int| i + 1 <= j < q.len() implies store.streams()[#[trigger] q[j]]
                                        == m0[q[j]] by {
                                        assert(q[j] != q[i]);
                                    }
                                    assert forall|j: int| 0 <= j < i + 1 && !kp[j] implies store.streams()[#[trigger] q[j]]
                                        == N::spec_set_next(m0[q[j]], None) by {
                                        if j < i {
                                            assert(q[j] != q[i]);
                                        }
                                    }
                                    assert forall|k: usize|
                                        #[trigger] m0.dom().contains(k) && !q.contains(
                                        k,
                                    ) implies store.streams()[k] == m0[k] by {
                                        assert(q.contains(q[i]));
                                    }
                                }
                                match nxt {
                                    Some(nk) => {
                                        idxs.head = nk;
                                        curr = nk;
                                        proof {
                                            i = i + 1;
                                        }
                                    },
                                    None => {
                                        emptied = true;
                                        proof {
                                            assert(i == q.len() - 1);
                                            assert(q.subrange(0, i + 1) =~= q);
                                            assert(ks.len() == 0);
                                        }
                                        break ;
                                    },
                                }
                            },
                        }
                    }
                }
                if emptied {
                    self.indices = None;
                    self.chain = Ghost(Seq::empty());
                    proof {
                        assert(self.chain@ =~= ks);
                        assert(retain_describes::<N>(q, m0, kp, self.chain@, store.streams()));
                    }
                } else {
                    self.indices = Some(idxs);
                    self.chain = Ghost(ks);
                    proof {
                        assert(retain_describes::<N>(q, m0, kp, self.chain@, store.streams()));
                        assert forall|a: int| 0 <= a < ks.len() implies store.streams().dom().contains(
                            #[trigger] ks[a],
                        ) by {
                            assert(q.contains(ks[a]));
                            let j = choose|j: int| 0 <= j < q.len() && q[j] == ks[a];
                            assert(m0.dom().contains(q[j]));
                        }
                        assert forall|a: int| 0 <= a < ks.len() - 1 implies N::spec_next(
                            store.streams()[#[trigger] ks[a]],
                        ) == Some(Key(ks[a + 1])) by {
                            N::lemma_set_get(m0[ks[a]], Some(Key(ks[a + 1])));
                        }
                        assert(N::spec_next(store.streams()[ks[ks.len() - 1]]) is None) by {
                            N::lemma_set_get(m0[ks[ks.len() - 1]], None);
                        }
                    }
                }
            },
        }
    }
}

/// The chain left by pushing the keys `ks`, in order, onto a list whose
/// chain was `q`: each push appends exactly its key, per `push`'s contract.
pub open spec fn pushed_chain(q: Seq<usize>, ks: Seq<usize>) -> Seq<usize>
    decreases ks.len(),
{
    if ks.len() == 0 {
        q
    } else {
        pushed_chain(q, ks.drop_last()).push(ks.last())
    }
}

/// Law (FIFO order): pushing keys k1..kn onto an empty list builds exactly
/// the chain k1..kn. Since each pop returns the chain's first key and drops
/// it, n pops then return k1..kn in that order and leave the list empty.
pub proof fn lemma_fifo_order(ks: Seq<usize>)
    ensures
        pushed_chain(Seq::empty(), ks) == ks,
    decreases ks.len(),
{
    if ks.len() == 0 {
        assert(pushed_chain(Seq::empty(), ks) =~= ks);
    } else {
        lemma_fifo_order(ks.drop_last());
        assert(pushed_chain(Seq::empty(), ks) =~= ks);
    }
}

/// Law (multi-queue independence): rewriting one stream's link for
/// capability `A` — the store mutation that `push`, `pop` and `retain` over
/// `A` perform — leaves any list over a capability `B` that reads a
/// different field well-formed, with its chain untouched.
pub proof fn lemma_queue_independence<A: Next, B: Next>(
    l: List,
    m: Map<usize, Stream>,
    k: usize,
    link: Option<Key>,
)
    requires
        l.wf::<B>(m),
        m.dom().contains(k),
        forall|s: Stream, x: Option<Key>|
            B::spec_next(#[trigger] A::spec_set_next(s, x)) == B::spec_next(s),
    ensures
        l.wf::<B>(m.insert(k, A::spec_set_next(m[k], link))),
{
    let m2 = m.insert(k, A::spec_set_next(m[k], link));
    let q = l@;
    assert forall|i: int| 0 <= i < q.len() implies m2.dom().contains(#[trigger] q[i]) by {}
    assert forall|i: int| 0 <= i < q.len() - 1 implies B::spec_next(m2[#[trigger] q[i]]) == Some(
        Key(q[i + 1]),
    ) by {
        if q[i] == k {
            assert(B::spec_next(A::spec_set_next(m[k], link)) == B::spec_next(m[k]));
        }
    }
    if q.len() > 0 {
        assert(B::spec_next(m2[q[q.len() - 1]]) is None) by {
            if q[q.len() - 1] == k {
                assert(B::spec_next(A::spec_set_next(m[k], link)) == B::spec_next(m[k]));
            }
        }
    }
}

/// Law (multi-queue independence, built-in capabilities): a pending-send
/// mutation — the link rewrite that `push`, `pop` and `retain` over
/// `PendingSend` perform on one slot — leaves any pending-reset queue
/// well-formed, and the other way around.
pub proof fn lemma_send_reset_queues_independent(
    l: List,
    m: Map<usize, Stream>,
    k: usize,
    link: Option<Key>,
)
    requires
        m.dom().contains(k),
    ensures
        l.wf::<PendingReset>(m) ==> l.wf::<PendingReset>(
            m.insert(k, PendingSend::spec_set_next(m[k], link)),
        ),
        l.wf::<PendingSend>(m) ==> l.wf::<PendingSend>(
            m.insert(k, PendingReset::spec_set_next(m[k], link)),
        ),
{
    lemma_capabilities_independent();
    if l.wf::<PendingReset>(m) {
        lemma_queue_independence::<PendingSend, PendingReset>(l, m, k, link);
    }
    if l.wf::<PendingSend>(m) {
        lemma_queue_independence::<PendingReset, PendingSend>(l, m, k, link);
    }
}

} // verus!
