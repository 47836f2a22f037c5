//! Permutations stored as a forward and an inverse index array.
use vstd::prelude::*;

verus! {

/// `forward` and `inverse` are permutations of `0..n`, each the inverse of
/// the other, with `n` no larger than the largest signed index.
pub open spec fn is_perm(forward: Seq<usize>, inverse: Seq<usize>, n: nat) -> bool {
    &&& forward.len() == n
    &&& inverse.len() == n
    &&& n <= isize::MAX
    &&& forall|k: int| 0 <= k < n ==> #[trigger] forward[k] < n && inverse[forward[k] as int] == k
    &&& forall|k: int| 0 <= k < n ==> #[trigger] inverse[k] < n && forward[inverse[k] as int] == k
}

/// Whether the arrays describe a valid permutation of dimension `dim`.
pub fn is_valid_perm(forward: &[usize], inverse: &[usize], dim: usize) -> (r: bool)
    ensures
        r == is_perm(forward@, inverse@, dim as nat),
{
    if forward.len() != dim || inverse.len() != dim || dim > isize::MAX as usize {
        return false;
    }
    let mut k: usize = 0;
    while k < dim
        invariant
            k <= dim,
            forward@.len() == dim,
            inverse@.len() == dim,
            forall|t: int| 0 <= t < k ==> #[trigger] forward@[t] < dim && inverse@[forward@[t] as int] == t,
        decreases dim - k,
    {
        let f = forward[k];
        if f >= dim || inverse[f] != k {
            assert(!(forward@[k as int] < dim && inverse@[forward@[k as int] as int] == k));
            return false;
        }
        k = k + 1;
    }
    let mut k: usize = 0;
    while k < dim
        invariant
            k <= dim,
            forward@.len() == dim,
            inverse@.len() == dim,
            forall|t: int| 0 <= t < dim ==> #[trigger] forward@[t] < dim && inverse@[forward@[t] as int] == t,
            forall|t: int| 0 <= t < k ==> #[trigger] inverse@[t] < dim && forward@[inverse@[t] as int] == t,
        decreases dim - k,
    {
        let b = inverse[k];
        if b >= dim || forward[b] != k {
            assert(!(inverse@[k as int] < dim && forward@[inverse@[k as int] as int] == k));
            return false;
        }
        k = k + 1;
    }
    true
}

/// A permutation of `0..n`, owning its two index arrays.
#[derive(Debug)]
pub struct Perm {
    forward: Vec<usize>,
    inverse: Vec<usize>,
}

/// A borrowed view of a permutation.
#[derive(Debug, Clone, Copy)]
pub struct PermRef<'a> {
    forward: &'a [usize],
    inverse: &'a [usize],
}

impl Perm {
    #[verifier::type_invariant]
    spec fn inv(&self) -> bool {
        is_perm(self.forward@, self.inverse@, self.forward@.len())
    }

    /// `fwd()[k]` is the index that position `k` takes its value from.
    pub closed spec fn fwd(&self) -> Seq<usize> {
        self.forward@
    }

    pub closed spec fn bwd(&self) -> Seq<usize> {
        self.inverse@
    }

    pub open spec fn dim(&self) -> nat {
        self.fwd().len()
    }

    /// A permutation from its two arrays.
    pub fn new_checked(forward: Vec<usize>, inverse: Vec<usize>, dim: usize) -> (r: Self)
        requires
            is_perm(forward@, inverse@, dim as nat),
        ensures
            r.fwd() == forward@,
            r.bwd() == inverse@,
    {
        Perm { forward, inverse }
    }

    /// The view of this permutation.
    pub fn as_ref(&self) -> (r: PermRef<'_>)
        ensures
            r.fwd() == self.fwd(),
            r.bwd() == self.bwd(),
    {
        proof {
            use_type_invariant(self);
        }
        PermRef { forward: self.forward.as_slice(), inverse: self.inverse.as_slice() }
    }

    /// The view of this permutation, whose dimension must be `dim`.
    pub fn as_shape(&self, dim: usize) -> (r: PermRef<'_>)
        requires
            dim == self.dim(),
        ensures
            r.fwd() == self.fwd(),
            r.bwd() == self.bwd(),
    {
        self.as_ref()
    }

    /// The forward and the inverse array.
    pub fn into_arrays(self) -> (r: (Vec<usize>, Vec<usize>))
        ensures
            r.0@ == self.fwd(),
            r.1@ == self.bwd(),
            is_perm(r.0@, r.1@, r.0@.len()),
    {
        proof {
            use_type_invariant(&self);
        }
        (self.forward, self.inverse)
    }

    /// The dimension.
    pub fn len(&self) -> (r: usize)
        ensures
            r == self.dim(),
            is_perm(self.fwd(), self.bwd(), self.dim()),
    {
        proof {
            use_type_invariant(self);
        }
        self.forward.len()
    }

    /// The inverse permutation: the two arrays trade places.
    pub fn into_inverse(self) -> (r: Self)
        ensures
            r.fwd() == self.bwd(),
            r.bwd() == self.fwd(),
    {
        proof {
            use_type_invariant(&self);
        }
        Perm { forward: self.inverse, inverse: self.forward }
    }
}

impl<'a> PermRef<'a> {
    #[verifier::type_invariant]
    spec fn inv(&self) -> bool {
        is_perm(self.forward@, self.inverse@, self.forward@.len())
    }

    pub closed spec fn fwd(&self) -> Seq<usize> {
        self.forward@
    }

    pub closed spec fn bwd(&self) -> Seq<usize> {
        self.inverse@
    }

    pub open spec fn dim(&self) -> nat {
        self.fwd().len()
    }

    /// The inverse permutation, as a view of the same arrays.
    pub fn inverse(self) -> (r: PermRef<'a>)
        ensures
            r.fwd() == self.bwd(),
            r.bwd() == self.fwd(),
    {
        proof {
            use_type_invariant(&self);
        }
        PermRef { forward: self.inverse, inverse: self.forward }
    }

    /// The dimension.
    pub fn len(&self) -> (r: usize)
        ensures
            r == self.dim(),
            is_perm(self.fwd(), self.bwd(), self.dim()),
    {
        proof {
            use_type_invariant(self);
        }
        self.forward.len()
    }

    /// The forward array.
    pub fn forward(&self) -> (r: &'a [usize])
        ensures
            r@ == self.fwd(),
            is_perm(self.fwd(), self.bwd(), self.dim()),
    {
        proof {
            use_type_invariant(self);
        }
        self.forward
    }

    /// The inverse array.
    pub fn backward(&self) -> (r: &'a [usize])
        ensures
            r@ == self.bwd(),
            is_perm(self.fwd(), self.bwd(), self.dim()),
    {
        proof {
            use_type_invariant(self);
        }
        self.inverse
    }
}

} // verus!
