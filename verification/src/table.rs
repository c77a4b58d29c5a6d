//! Ordered symbol tables: element names mapped to accumulated exact-rational
//! quantities, in first-appearance order.
//!
//! One master table fixes the universe of element symbols and the row order
//! of the stoichiometric matrix; a working copy per molecule accumulates the
//! signed quantities that become one matrix column.

use vstd::prelude::*;

verus! {

use vstd::slice::slice_to_vec;
use crate::rat::Rat;
use crate::rat::frac_fits;
use crate::rat::q_add;

/// Index of `name` in the key sequence `ks`, scanning from `i`; the length
/// of `ks` when the name is absent.
pub open spec fn tbl_idx(ks: Seq<Seq<u8>>, name: Seq<u8>, i: int) -> int
    decreases ks.len() - i,
        when 0 <= i <= ks.len()
{
    if i >= ks.len() {
        i
    } else if ks[i] == name {
        i
    } else {
        tbl_idx(ks, name, i + 1)
    }
}

pub proof fn lemma_tbl_idx(ks: Seq<Seq<u8>>, name: Seq<u8>, i: int)
    requires
        0 <= i <= ks.len(),
    ensures
        i <= tbl_idx(ks, name, i) <= ks.len(),
    decreases ks.len() - i,
{
    if i < ks.len() && ks[i] != name {
        lemma_tbl_idx(ks, name, i + 1);
    }
}

/// Registers `name` with quantity zero when it is absent; keeps the table
/// unchanged when it is already present.
pub open spec fn tbl_reg(ks: Seq<Seq<u8>>, vs: Seq<(int, int)>, name: Seq<u8>) -> (
    Seq<Seq<u8>>,
    Seq<(int, int)>,
) {
    if tbl_idx(ks, name, 0) == ks.len() {
        (ks.push(name), vs.push((0int, 1int)))
    } else {
        (ks, vs)
    }
}

/// Adds `p` to the quantity stored under `name`, creating the entry when it
/// is absent; `None` when the exact sum overflows.
pub open spec fn tbl_add(ks: Seq<Seq<u8>>, vs: Seq<(int, int)>, name: Seq<u8>, p: (int, int)) -> Option<
    (Seq<Seq<u8>>, Seq<(int, int)>),
> {
    let i = tbl_idx(ks, name, 0);
    if i == ks.len() {
        Some((ks.push(name), vs.push(p)))
    } else {
        match q_add(vs[i], p) {
            Some(v) => Some((ks, vs.update(i, v))),
            None => None,
        }
    }
}

/// An insertion-ordered mapping from element names to exact quantities.
pub struct SymTable {
    names: Vec<Vec<u8>>,
    vals: Vec<Rat>,
}

impl SymTable {
    /// The element names, in first-appearance order.
    pub closed spec fn keys(&self) -> Seq<Seq<u8>> {
        self.names@.map_values(|n: Vec<u8>| n@)
    }

    /// The accumulated quantities, as numerator/denominator pairs, in the
    /// same order as the names.
    pub closed spec fn quantities(&self) -> Seq<(int, int)> {
        self.vals@.map_values(|r: Rat| r@)
    }

    /// Names and quantities stay aligned and every quantity is representable.
    pub open spec fn wf(&self) -> bool {
        &&& self.keys().len() == self.quantities().len()
        &&& forall|i: int| 0 <= i < self.quantities().len() ==> frac_fits(#[trigger] self.quantities()[i])
    }

    /// An empty table.
    pub fn new() -> (r: SymTable)
        ensures
            r.wf(),
            r.keys() == Seq::<Seq<u8>>::empty(),
            r.quantities() == Seq::<(int, int)>::empty(),
    {
        let r = SymTable { names: Vec::new(), vals: Vec::new() };
        proof {
            assert(r.keys() =~= Seq::<Seq<u8>>::empty());
            assert(r.quantities() =~= Seq::<(int, int)>::empty());
        }
        r
    }

    /// Number of entries.
    pub fn len(&self) -> (r: usize)
        requires
            self.wf(),
        ensures
            r as int == self.keys().len(),
    {
        self.names.len()
    }

    fn find_from(&self, name: &Vec<u8>, i: usize) -> (r: usize)
        requires
            self.wf(),
            i as int <= self.keys().len(),
        ensures
            r as int == tbl_idx(self.keys(), name@, i as int),
            i <= r <= self.keys().len(),
        decreases self.keys().len() - i,
    {
        if i >= self.names.len() {
            i
        } else if bytes_eq(&self.names[i], name) {
            i
        } else {
            self.find_from(name, i + 1)
        }
    }

    /// The quantity stored under `name`, when the name is present.
    pub fn get(&self, name: &Vec<u8>) -> (r: Option<Rat>)
        requires
            self.wf(),
        ensures
            ({
                let i = tbl_idx(self.keys(), name@, 0);
                if i < self.keys().len() {
                    r matches Some(c) && c@ == self.quantities()[i]
                } else {
                    r is None
                }
            }),
    {
        proof {
            lemma_tbl_idx(self.keys(), name@, 0);
        }
        let i = self.find_from(name, 0);
        if i < self.vals.len() {
            Some(self.vals[i])
        } else {
            None
        }
    }

    /// Registers `name` at quantity zero when absent.
    pub fn register(&mut self, name: Vec<u8>)
        requires
            old(self).wf(),
        ensures
            final(self).wf(),
            (final(self).keys(), final(self).quantities()) == tbl_reg(
                old(self).keys(),
                old(self).quantities(),
                name@,
            ),
            final(self).keys().len() >= old(self).keys().len(),
    {
        let i = self.find_from(&name, 0);
        if i == self.names.len() {
            self.names.push(name);
            self.vals.push(Rat::zero());
            proof {
                assert(self.keys() =~= old(self).keys().push(name@));
                assert(self.quantities() =~= old(self).quantities().push((0int, 1int)));
            }
        }
    }

    /// Adds `p` to the quantity under `name`, creating the entry when it is
    /// absent.  Returns false, leaving the table unchanged, when the exact
    /// sum cannot be represented.
    pub fn accumulate(&mut self, name: Vec<u8>, p: Rat) -> (r: bool)
        requires
            old(self).wf(),
            p.wf(),
        ensures
            final(self).wf(),
            match tbl_add(old(self).keys(), old(self).quantities(), name@, p@) {
                Some(kv) => r && final(self).keys() == kv.0 && final(self).quantities() == kv.1,
                None => !r && final(self).keys() == old(self).keys() && final(self).quantities()
                    == old(self).quantities(),
            },
            final(self).keys().len() >= old(self).keys().len(),
    {
        let i = self.find_from(&name, 0);
        if i == self.names.len() {
            self.names.push(name);
            self.vals.push(p);
            proof {
                assert(self.keys() =~= old(self).keys().push(name@));
                assert(self.quantities() =~= old(self).quantities().push(p@));
            }
            true
        } else {
            let cur = self.vals[i];
            match cur.add(p) {
                Some(v) => {
                    self.vals.set(i, v);
                    proof {
                        assert(self.keys() =~= old(self).keys());
                        assert(self.quantities() =~= old(self).quantities().update(i as int, v@));
                    }
                    true
                },
                None => false,
            }
        }
    }

    /// A copy of the quantities, in key order.
    pub fn values(&self) -> (r: Vec<Rat>)
        requires
            self.wf(),
        ensures
            r@.map_values(|x: Rat| x@) == self.quantities(),
            r@.len() == self.quantities().len(),
            forall|i: int| 0 <= i < r@.len() ==> (#[trigger] r@[i]).wf(),
    {
        let mut r: Vec<Rat> = Vec::new();
        let n = self.vals.len();
        let mut k: usize = 0;
        while k < n
            invariant
                k <= n,
                n == self.vals@.len(),
                self.wf(),
                r@.len() == k as int,
                forall|j: int| 0 <= j < k ==> #[trigger] r@[j] == self.vals@[j],
            decreases n - k,
        {
            r.push(self.vals[k]);
            k = k + 1;
        }
        proof {
            assert(r@.map_values(|x: Rat| x@) =~= self.quantities());
            assert forall|i: int| 0 <= i < r@.len() implies (#[trigger] r@[i]).wf() by {
                assert(self.quantities()[i] == self.vals@[i]@);
            }
        }
        r
    }

    /// A fresh table with the same keys and every quantity zero.
    pub fn zero_clone(&self) -> (r: SymTable)
        requires
            self.wf(),
        ensures
            r.wf(),
            r.keys() == self.keys(),
            r.quantities() == Seq::<(int, int)>::new(self.keys().len(), |i: int| (0int, 1int)),
    {
        let mut names: Vec<Vec<u8>> = Vec::new();
        let mut vals: Vec<Rat> = Vec::new();
        let n = self.names.len();
        let mut k: usize = 0;
        while k < n
            invariant
                k <= n,
                n == self.names@.len(),
                self.wf(),
                names@.len() == k as int,
                vals@.len() == k as int,
                forall|j: int| 0 <= j < k ==> (#[trigger] names@[j])@ == self.keys()[j],
                forall|j: int| 0 <= j < k ==> (#[trigger] vals@[j])@ == (0int, 1int),
            decreases n - k,
        {
            names.push(slice_to_vec(self.names[k].as_slice()));
            vals.push(Rat::zero());
            k = k + 1;
        }
        let r = SymTable { names, vals };
        proof {
            assert(r.keys() =~= self.keys());
            assert(r.quantities() =~= Seq::<(int, int)>::new(self.keys().len(), |i: int| (0int, 1int)));
        }
        r
    }
}

/// Byte-for-byte equality of two byte vectors.
pub fn bytes_eq(a: &Vec<u8>, b: &Vec<u8>) -> (r: bool)
    ensures
        r == (a@ == b@),
{
    if a.len() != b.len() {
        return false;
    }
    let n = a.len();
    let mut k: usize = 0;
    while k < n
        invariant
            k <= n,
            n == a@.len(),
            n == b@.len(),
            forall|j: int| 0 <= j < k ==> a@[j] == b@[j],
        decreases n - k,
    {
        if a[k] != b[k] {
            return false;
        }
        k = k + 1;
    }
    proof {
        assert(a@ =~= b@);
    }
    true
}

} // verus!
