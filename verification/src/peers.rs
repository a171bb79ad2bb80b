//! The peer head table: the head that each peer announced last.
use crate::bucket::views_of;
use crate::peers_laws::lemma_first_peer_exists;
use crate::tipset::{bytes_eq, copy_bytes, Tipset, TipsetView};
use vstd::prelude::*;

verus! {

/// One line of the table: a peer, by the bytes of its identity, and the head
/// that it announced.
#[derive(Debug)]
pub struct PeerHead {
    peer: Vec<u8>,
    head: Tipset,
}

/// The views of the lines of a table, in order.
pub open spec fn line_views(lines: Seq<PeerHead>) -> Seq<(Seq<u8>, TipsetView)> {
    Seq::new(lines.len(), |i: int| lines[i]@)
}

/// `i` is the place of the first line of peer `p`.
pub open spec fn is_first_peer(tb: Seq<(Seq<u8>, TipsetView)>, p: Seq<u8>, i: int) -> bool {
    &&& 0 <= i < tb.len()
    &&& tb[i].0 == p
    &&& forall|j: int| 0 <= j < i ==> (#[trigger] tb[j]).0 != p
}

/// No peer has two lines.
pub open spec fn distinct_peers(tb: Seq<(Seq<u8>, TipsetView)>) -> bool {
    forall|i: int, j: int| 0 <= i < j < tb.len() ==> (#[trigger] tb[i]).0 != (#[trigger] tb[j]).0
}

/// The table after peer `p` announced `t`: the line of `p` is replaced, or,
/// where `p` had none, a line is added at the end.
pub open spec fn table_set(tb: Seq<(Seq<u8>, TipsetView)>, p: Seq<u8>, t: TipsetView) -> Seq<
    (Seq<u8>, TipsetView),
> {
    if exists|i: int| is_first_peer(tb, p, i) {
        let i = choose|i: int| is_first_peer(tb, p, i);
        tb.update(i, (p, t))
    } else {
        tb.push((p, t))
    }
}

/// The head that peer `p` announced last, if it announced any.
pub open spec fn head_of(tb: Seq<(Seq<u8>, TipsetView)>, p: Seq<u8>) -> Option<TipsetView> {
    if exists|i: int| is_first_peer(tb, p, i) {
        let i = choose|i: int| is_first_peer(tb, p, i);
        Some(tb[i].1)
    } else {
        None
    }
}

/// The number of lines of peer `p`.
pub open spec fn lines_of(tb: Seq<(Seq<u8>, TipsetView)>, p: Seq<u8>) -> nat
    decreases tb.len(),
{
    if tb.len() == 0 {
        0
    } else if tb.last().0 == p {
        lines_of(tb.drop_last(), p) + 1
    } else {
        lines_of(tb.drop_last(), p)
    }
}

/// The announced heads, in the order of the table.
pub open spec fn heads_of(tb: Seq<(Seq<u8>, TipsetView)>) -> Seq<TipsetView> {
    Seq::new(tb.len(), |i: int| tb[i].1)
}

impl View for PeerHead {
    type V = (Seq<u8>, TipsetView);

    closed spec fn view(&self) -> (Seq<u8>, TipsetView) {
        (self.peer@, self.head@)
    }
}

/// Last announced head of each peer.
#[derive(Debug)]
pub struct PeerHeads {
    lines: Vec<PeerHead>,
}

impl View for PeerHeads {
    type V = Seq<(Seq<u8>, TipsetView)>;

    closed spec fn view(&self) -> Seq<(Seq<u8>, TipsetView)> {
        line_views(self.lines@)
    }
}

impl PeerHeads {
    /// Well-formedness: no peer has two lines.
    pub open spec fn wf(&self) -> bool {
        distinct_peers(self@)
    }

    /// A table without lines.
    pub fn new() -> (r: PeerHeads)
        ensures
            r@ == Seq::<(Seq<u8>, TipsetView)>::empty(),
            r.wf(),
    {
        let r = PeerHeads { lines: Vec::new() };
        assert(r@ =~= Seq::<(Seq<u8>, TipsetView)>::empty());
        r
    }

    /// The number of peers that announced a head.
    pub fn len(&self) -> (r: usize)
        ensures
            r == self@.len(),
    {
        self.lines.len()
    }

    /// The place of the first line of `peer`.
    fn find(&self, peer: &Vec<u8>) -> (r: Option<usize>)
        ensures
            match r {
                Some(i) => is_first_peer(self@, peer@, i as int),
                None => !exists|i: int| is_first_peer(self@, peer@, i),
            },
    {
        let mut i: usize = 0;
        while i < self.lines.len()
            invariant
                i <= self.lines.len(),
                forall|j: int| 0 <= j < i ==> (#[trigger] self@[j]).0 != peer@,
            decreases self.lines.len() - i,
        {
            if bytes_eq(&self.lines[i].peer, peer) {
                return Some(i);
            }
            i += 1;
        }
        assert forall|k: int| !is_first_peer(self@, peer@, k) by {
            if 0 <= k < self@.len() {
                assert(self@[k].0 != peer@);
            }
        }
        None
    }

    /// Records that `peer` announced `head`: an earlier announcement of the
    /// same peer is replaced.
    pub fn set(&mut self, peer: &Vec<u8>, head: Tipset)
        ensures
            final(self)@ == table_set(old(self)@, peer@, head@),
            old(self).wf() ==> final(self).wf(),
    {
        let line = PeerHead { peer: copy_bytes(peer), head };
        match self.find(peer) {
            Some(i) => {
                let ghost at = choose|k: int| is_first_peer(old(self)@, peer@, k);
                assert(at == i);
                self.lines.set(i, line);
                assert(self@ =~= old(self)@.update(i as int, (peer@, head@)));
            },
            None => {
                self.lines.push(line);
                assert(self@ =~= old(self)@.push((peer@, head@)));
                assert forall|k: int| 0 <= k < old(self)@.len() implies (#[trigger] old(
                    self,
                )@[k]).0 != peer@ by {
                    if old(self)@[k].0 == peer@ {
                        lemma_first_peer_exists(old(self)@, peer@, k);
                    }
                }
            },
        }
    }

    /// The head that `peer` announced last.
    pub fn get(&self, peer: &Vec<u8>) -> (r: Option<Tipset>)
        ensures
            crate::bucket::option_view(r) == head_of(self@, peer@),
    {
        match self.find(peer) {
            Some(i) => {
                let ghost at = choose|k: int| is_first_peer(self@, peer@, k);
                assert(at == i);
                Some(self.lines[i].head.clone())
            },
            None => None,
        }
    }

    /// The announced heads, in the order of the table.
    pub fn heads(&self) -> (r: Vec<Tipset>)
        ensures
            views_of(r@) == heads_of(self@),
    {
        let mut out: Vec<Tipset> = Vec::new();
        let mut i: usize = 0;
        while i < self.lines.len()
            invariant
                i <= self.lines.len(),
                out.len() == i,
                forall|j: int| 0 <= j < i ==> #[trigger] out@[j]@ == self@[j].1,
            decreases self.lines.len() - i,
        {
            out.push(self.lines[i].head.clone());
            i += 1;
        }
        assert(views_of(out@) =~= heads_of(self@));
        out
    }
}

impl Clone for PeerHeads {
    fn clone(&self) -> (r: PeerHeads)
        ensures
            r@ == self@,
    {
        let mut out: Vec<PeerHead> = Vec::new();
        let mut i: usize = 0;
        while i < self.lines.len()
            invariant
                i <= self.lines.len(),
                out.len() == i,
                forall|j: int| 0 <= j < i ==> #[trigger] out@[j]@ == self.lines@[j]@,
            decreases self.lines.len() - i,
        {
            let line = &self.lines[i];
            out.push(PeerHead { peer: copy_bytes(&line.peer), head: line.head.clone() });
            i += 1;
        }
        let r = PeerHeads { lines: out };
        assert(r@ =~= self@);
        r
    }
}

} // verus!
