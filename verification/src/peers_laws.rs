//! What holds of the peer head table: a later announcement of a peer
//! replaces its earlier one.
use crate::peers::{distinct_peers, head_of, is_first_peer, lines_of, table_set};
use crate::tipset::TipsetView;
use vstd::prelude::*;

verus! {

/// Where some line is of peer `p`, there is a first such line.
pub proof fn lemma_first_peer_exists(tb: Seq<(Seq<u8>, TipsetView)>, p: Seq<u8>, k: int)
    requires
        0 <= k < tb.len(),
        tb[k].0 == p,
    ensures
        exists|i: int| is_first_peer(tb, p, i),
    decreases k,
{
    if exists|j: int| 0 <= j < k && (#[trigger] tb[j]).0 == p {
        let j = choose|j: int| 0 <= j < k && (#[trigger] tb[j]).0 == p;
        lemma_first_peer_exists(tb, p, j);
    } else {
        assert(is_first_peer(tb, p, k));
    }
}

/// In a table where no peer has two lines, the number of lines of a peer is
/// one where the peer has a line, and zero where it has none.
pub proof fn lemma_lines_of(tb: Seq<(Seq<u8>, TipsetView)>, p: Seq<u8>)
    requires
        distinct_peers(tb),
    ensures
        lines_of(tb, p) == if exists|i: int| is_first_peer(tb, p, i) {
            1nat
        } else {
            0nat
        },
    decreases tb.len(),
{
    if tb.len() > 0 {
        let rest = tb.drop_last();
        let n = tb.len() - 1;
        assert(forall|j: int| 0 <= j < rest.len() ==> rest[j] == tb[j]);
        lemma_lines_of(rest, p);
        if tb.last().0 == p {
            assert forall|i: int| !is_first_peer(rest, p, i) by {
                if 0 <= i < rest.len() && rest[i].0 == p {
                    assert(tb[i].0 != tb[n].0);
                }
            }
            assert(is_first_peer(tb, p, n)) by {
                assert forall|j: int| 0 <= j < n implies (#[trigger] tb[j]).0 != p by {
                    assert(tb[j].0 != tb[n].0);
                }
            }
        } else {
            if exists|i: int| is_first_peer(tb, p, i) {
                let i = choose|i: int| is_first_peer(tb, p, i);
                assert(is_first_peer(rest, p, i));
            }
            if exists|i: int| is_first_peer(rest, p, i) {
                let i = choose|i: int| is_first_peer(rest, p, i);
                assert(is_first_peer(tb, p, i));
            }
        }
    } else {
        assert forall|i: int| !is_first_peer(tb, p, i) by {}
    }
}

/// Replacing keeps the table free of double lines, and afterwards the peer
/// has the announced head.
pub proof fn lemma_table_set(tb: Seq<(Seq<u8>, TipsetView)>, p: Seq<u8>, t: TipsetView)
    requires
        distinct_peers(tb),
    ensures
        distinct_peers(table_set(tb, p, t)),
        head_of(table_set(tb, p, t), p) == Some(t),
        table_set(tb, p, t).len() >= 1,
        table_set(tb, p, t).len() == if exists|i: int| is_first_peer(tb, p, i) {
            tb.len()
        } else {
            tb.len() + 1
        },
{
    let after = table_set(tb, p, t);
    if exists|i: int| is_first_peer(tb, p, i) {
        let i = choose|i: int| is_first_peer(tb, p, i);
        assert forall|a: int, b: int| 0 <= a < b < after.len() implies (#[trigger] after[a]).0 != (
        #[trigger] after[b]).0 by {
            assert(tb[a].0 != tb[b].0);
        }
        assert(is_first_peer(after, p, i)) by {
            assert forall|j: int| 0 <= j < i implies (#[trigger] after[j]).0 != p by {
                assert(tb[j].0 != p);
            }
        }
        let k = choose|k: int| is_first_peer(after, p, k);
        if k < i {
            assert(after[k].0 != p);
        }
        if i < k {
            assert(after[i].0 != p);
        }
    } else {
        let n = tb.len() as int;
        assert forall|j: int| 0 <= j < n implies (#[trigger] tb[j]).0 != p by {
            if tb[j].0 == p {
                lemma_first_peer_exists(tb, p, j);
            }
        }
        assert forall|a: int, b: int| 0 <= a < b < after.len() implies (#[trigger] after[a]).0 != (
        #[trigger] after[b]).0 by {
            if b < n {
                assert(tb[a].0 != tb[b].0);
            } else {
                assert(tb[a].0 != p);
            }
        }
        assert(is_first_peer(after, p, n)) by {
            assert forall|j: int| 0 <= j < n implies (#[trigger] after[j]).0 != p by {
                assert(tb[j].0 != p);
            }
        }
        let k = choose|k: int| is_first_peer(after, p, k);
        if k < n {
            assert(tb[k].0 != p);
        }
    }
}

/// Two announcements of one peer leave what the second alone would leave:
/// the table has one line for the peer, and it holds the second head.
pub proof fn lemma_second_announcement_replaces(
    tb: Seq<(Seq<u8>, TipsetView)>,
    p: Seq<u8>,
    t1: TipsetView,
    t2: TipsetView,
)
    requires
        distinct_peers(tb),
    ensures
        table_set(table_set(tb, p, t1), p, t2) == table_set(tb, p, t2),
        table_set(table_set(tb, p, t1), p, t2).len() == table_set(tb, p, t1).len(),
        head_of(table_set(table_set(tb, p, t1), p, t2), p) == Some(t2),
        lines_of(table_set(table_set(tb, p, t1), p, t2), p) == 1,
{
    let once = table_set(tb, p, t1);
    let twice = table_set(once, p, t2);
    lemma_table_set(tb, p, t1);
    lemma_table_set(once, p, t2);
    lemma_table_set(tb, p, t2);
    lemma_lines_of(twice, p);
    assert(head_of(once, p) == Some(t1));
    let k = choose|k: int| is_first_peer(once, p, k);
    assert(is_first_peer(once, p, k));
    if exists|i: int| is_first_peer(tb, p, i) {
        let i = choose|i: int| is_first_peer(tb, p, i);
        if k < i {
            assert(tb[k].0 != p);
        }
        if i < k {
            assert(once[i].0 != p);
        }
        assert(twice =~= table_set(tb, p, t2));
    } else {
        let n = tb.len() as int;
        if k < n {
            assert forall|j: int| 0 <= j < n implies (#[trigger] tb[j]).0 != p by {
                if tb[j].0 == p {
                    lemma_first_peer_exists(tb, p, j);
                }
            }
            assert(tb[k].0 != p);
        }
        assert(twice =~= table_set(tb, p, t2));
    }
    if !exists|i: int| is_first_peer(twice, p, i) {
        assert(head_of(twice, p) is None);
    }
}

} // verus!
