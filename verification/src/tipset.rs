//! Candidate tipsets: the values that the fork buckets group and compare.
use num_bigint::BigUint;
use vstd::prelude::*;

verus! {

/// The number that a big-endian byte string denotes.
pub open spec fn be_value(bytes: Seq<u8>) -> nat
    decreases bytes.len(),
{
    if bytes.len() == 0 {
        0
    } else {
        be_value(bytes.drop_last()) * 256 + bytes.last() as nat
    }
}

/// The set of identifiers that a list of encoded block identifiers holds.
pub open spec fn ids_of(cids: Seq<Vec<u8>>) -> Set<Seq<u8>> {
    Set::new(|id: Seq<u8>| exists|i: int| 0 <= i < cids.len() && #[trigger] cids[i]@ == id)
}

/// Tells whether two byte strings hold the same bytes.
pub fn bytes_eq(a: &Vec<u8>, b: &Vec<u8>) -> (r: bool)
    ensures
        r == (a@ == b@),
{
    if a.len() != b.len() {
        return false;
    }
    let mut i: usize = 0;
    while i < a.len()
        invariant
            a.len() == b.len(),
            i <= a.len(),
            forall|j: int| 0 <= j < i ==> a@[j] == b@[j],
        decreases a.len() - i,
    {
        if a[i] != b[i] {
            return false;
        }
        i += 1;
    }
    assert(a@ =~= b@);
    true
}

/// Copies a byte string.
pub fn copy_bytes(a: &Vec<u8>) -> (r: Vec<u8>)
    ensures
        r@ == a@,
{
    let mut out: Vec<u8> = Vec::new();
    let mut i: usize = 0;
    while i < a.len()
        invariant
            i <= a.len(),
            out@ == a@.take(i as int),
        decreases a.len() - i,
    {
        out.push(a[i]);
        assert(a@.take(i as int + 1) =~= a@.take(i as int).push(a@[i as int]));
        i += 1;
    }
    assert(a@.take(a.len() as int) =~= a@);
    out
}

/// The identity of a tipset: the identifiers of its blocks, as a set. The
/// order in which the identifiers were given, and repetitions among them, do
/// not count.
#[derive(Debug)]
pub struct TipsetKeys {
    cids: Vec<Vec<u8>>,
}

impl View for TipsetKeys {
    type V = Set<Seq<u8>>;

    closed spec fn view(&self) -> Set<Seq<u8>> {
        ids_of(self.cids@)
    }
}

impl TipsetKeys {
    /// Keys made of the given encoded block identifiers.
    pub fn new(cids: Vec<Vec<u8>>) -> (r: TipsetKeys)
        ensures
            r@ == ids_of(cids@),
    {
        TipsetKeys { cids }
    }

    /// Tells whether `id` is one of the block identifiers.
    pub fn contains(&self, id: &Vec<u8>) -> (r: bool)
        ensures
            r == self@.contains(id@),
    {
        let mut i: usize = 0;
        while i < self.cids.len()
            invariant
                i <= self.cids.len(),
                forall|j: int| 0 <= j < i ==> self.cids@[j]@ != id@,
            decreases self.cids.len() - i,
        {
            if bytes_eq(&self.cids[i], id) {
                return true;
            }
            i += 1;
        }
        false
    }

    /// Tells whether every block identifier of `self` is one of `other`.
    pub fn subset_of(&self, other: &TipsetKeys) -> (r: bool)
        ensures
            r == self@.subset_of(other@),
    {
        let mut i: usize = 0;
        while i < self.cids.len()
            invariant
                i <= self.cids.len(),
                forall|j: int| 0 <= j < i ==> other@.contains(#[trigger] self.cids@[j]@),
            decreases self.cids.len() - i,
        {
            if !other.contains(&self.cids[i]) {
                assert(self@.contains(self.cids@[i as int]@));
                return false;
            }
            i += 1;
        }
        true
    }

    /// Tells whether the two keys name the same set of blocks.
    pub fn equals(&self, other: &TipsetKeys) -> (r: bool)
        ensures
            r == (self@ == other@),
    {
        let r = self.subset_of(other) && other.subset_of(self);
        proof {
            if r {
                assert(self@ =~= other@);
            }
        }
        r
    }
}

impl Clone for TipsetKeys {
    fn clone(&self) -> (r: TipsetKeys)
        ensures
            r@ == self@,
    {
        let mut out: Vec<Vec<u8>> = Vec::new();
        let mut i: usize = 0;
        while i < self.cids.len()
            invariant
                i <= self.cids.len(),
                out.len() == i,
                forall|j: int| 0 <= j < i ==> #[trigger] out@[j]@ == self.cids@[j]@,
            decreases self.cids.len() - i,
        {
            out.push(copy_bytes(&self.cids[i]));
            i += 1;
        }
        let r = TipsetKeys { cids: out };
        proof {
            assert forall|id: Seq<u8>| r@.contains(id) == self@.contains(id) by {
                if r@.contains(id) {
                    let j = choose|j: int| 0 <= j < r.cids@.len() && #[trigger] r.cids@[j]@ == id;
                    assert(self.cids@[j]@ == id);
                }
                if self@.contains(id) {
                    let j = choose|j: int| 0 <= j < self.cids@.len() && #[trigger] self.cids@[j]@ == id;
                    assert(r.cids@[j]@ == id);
                }
            }
            assert(r@ =~= self@);
        }
        r
    }
}

/// What a tipset is to the fork choice: its identity, the identity of its
/// parent, its accumulated chain weight and its epoch.
pub struct TipsetView {
    pub key: Set<Seq<u8>>,
    pub parents: Set<Seq<u8>>,
    pub weight: nat,
    pub epoch: u64,
}

/// A candidate tipset. The weight is an unbounded number, held as its
/// big-endian bytes.
#[derive(Debug)]
pub struct Tipset {
    key: TipsetKeys,
    parents: TipsetKeys,
    weight: Vec<u8>,
    epoch: u64,
}

impl View for Tipset {
    type V = TipsetView;

    closed spec fn view(&self) -> TipsetView {
        TipsetView {
            key: self.key@,
            parents: self.parents@,
            weight: be_value(self.weight@),
            epoch: self.epoch,
        }
    }
}

/// Compares two weights given as big-endian bytes. Each is read with
/// `num_bigint::BigUint::from_bytes_be`, and the two numbers are compared
/// with `BigUint`'s `>`.
///
/// The contract is not proved; it states what `num_bigint` documents: that
/// `from_bytes_be` yields the number that the bytes denote in base 256, the
/// most significant byte first (no bytes denote zero, leading zero bytes do
/// not count), and that the order of `BigUint` is the order of the numbers.
#[verifier::external_body]
pub(crate) fn weight_exceeds(a: &Vec<u8>, b: &Vec<u8>) -> (r: bool)
    ensures
        r == (be_value(a@) > be_value(b@)),
{
    BigUint::from_bytes_be(a.as_slice()) > BigUint::from_bytes_be(b.as_slice())
}

impl Tipset {
    /// A tipset with the given identity, parent identity, weight (big-endian
    /// bytes) and epoch.
    pub fn new(key: TipsetKeys, parents: TipsetKeys, weight: Vec<u8>, epoch: u64) -> (r: Tipset)
        ensures
            r@ == (TipsetView {
                key: key@,
                parents: parents@,
                weight: be_value(weight@),
                epoch: epoch,
            }),
    {
        Tipset { key, parents, weight, epoch }
    }

    /// The identity of the tipset.
    pub fn key(&self) -> (r: &TipsetKeys)
        ensures
            r@ == self@.key,
    {
        &self.key
    }

    /// The identity of the parent tipset.
    pub fn parents(&self) -> (r: &TipsetKeys)
        ensures
            r@ == self@.parents,
    {
        &self.parents
    }

    /// The accumulated chain weight, as big-endian bytes.
    pub fn weight(&self) -> (r: &Vec<u8>)
        ensures
            be_value(r@) == self@.weight,
    {
        &self.weight
    }

    /// The epoch of the tipset.
    pub fn epoch(&self) -> (r: u64)
        ensures
            r == self@.epoch,
    {
        self.epoch
    }

    /// Tells whether the two tipsets agree in identity, parent, weight and
    /// epoch.
    pub fn same_as(&self, other: &Tipset) -> (r: bool)
        ensures
            r == (self@ == other@),
    {
        self.key.equals(&other.key) && self.parents.equals(&other.parents) && !weight_exceeds(
            &self.weight,
            &other.weight,
        ) && !weight_exceeds(&other.weight, &self.weight) && self.epoch == other.epoch
    }

    /// Tells whether `self` weighs strictly more than `other`.
    pub fn heavier_than(&self, other: &Tipset) -> (r: bool)
        ensures
            r == (self@.weight > other@.weight),
    {
        weight_exceeds(&self.weight, &other.weight)
    }
}

impl Clone for Tipset {
    fn clone(&self) -> (r: Tipset)
        ensures
            r@ == self@,
    {
        Tipset {
            key: self.key.clone(),
            parents: self.parents.clone(),
            weight: copy_bytes(&self.weight),
            epoch: self.epoch,
        }
    }
}

} // verus!
