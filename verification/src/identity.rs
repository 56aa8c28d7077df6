use vstd::prelude::*;

verus! {

/// The longest identity, in bytes.
pub const MAX_IDENTITY_LEN: usize = 29;

/// The identity of a party: an opaque byte string of at most
/// [`MAX_IDENTITY_LEN`] bytes. Its view is the byte string.
#[derive(Debug, PartialEq, Eq)]
pub struct Identity {
    bytes: Vec<u8>,
}

/// How one identity stands to another in the order of identities.
#[derive(Debug, Clone, Copy, PartialEq, Eq, Structural)]
pub enum Placement {
    Before,
    Same,
    After,
}

/// `a` and `b` agree below index `i` and differ at `i`.
pub open spec fn first_difference(a: Seq<u8>, b: Seq<u8>, i: int) -> bool {
    &&& 0 <= i < a.len()
    &&& i < b.len()
    &&& a[i] != b[i]
    &&& forall|j: int| 0 <= j < i ==> a[j] == b[j]
}

/// The strict order of identities: a shorter one comes first, and among
/// identities of one length the first differing byte decides.
pub open spec fn identity_lt(a: Seq<u8>, b: Seq<u8>) -> bool {
    ||| a.len() < b.len()
    ||| a.len() == b.len() && exists|i: int| first_difference(a, b, i) && a[i] < b[i]
}

/// No identity comes before itself.
pub proof fn lemma_identity_lt_irreflexive(a: Seq<u8>)
    ensures
        !identity_lt(a, a),
{
}

/// The order of identities is transitive.
pub proof fn lemma_identity_lt_transitive(a: Seq<u8>, b: Seq<u8>, c: Seq<u8>)
    requires
        identity_lt(a, b),
        identity_lt(b, c),
    ensures
        identity_lt(a, c),
{
    if a.len() == b.len() && b.len() == c.len() {
        let i = choose|i: int| first_difference(a, b, i) && a[i] < b[i];
        let j = choose|j: int| first_difference(b, c, j) && b[j] < c[j];
        let k = if i <= j { i } else { j };
        assert(first_difference(a, c, k) && a[k] < c[k]);
    }
}

/// Of two identities one comes first, unless they are equal; never both.
pub proof fn lemma_identity_lt_asymmetric(a: Seq<u8>, b: Seq<u8>)
    requires
        identity_lt(a, b),
    ensures
        !identity_lt(b, a),
        a != b,
{
    if identity_lt(b, a) {
        lemma_identity_lt_transitive(a, b, a);
    }
}

proof fn lemma_difference_from(a: Seq<u8>, b: Seq<u8>, k: int)
    requires
        a.len() == b.len(),
        a != b,
        0 <= k <= a.len(),
        forall|j: int| 0 <= j < k ==> a[j] == b[j],
    ensures
        exists|i: int| first_difference(a, b, i),
    decreases a.len() - k,
{
    if k == a.len() {
        assert(a =~= b);
    } else if a[k] != b[k] {
        assert(first_difference(a, b, k));
    } else {
        lemma_difference_from(a, b, k + 1);
    }
}

/// The order of identities is total.
pub proof fn lemma_identity_lt_total(a: Seq<u8>, b: Seq<u8>)
    ensures
        identity_lt(a, b) || a == b || identity_lt(b, a),
{
    if a.len() == b.len() && a != b {
        lemma_difference_from(a, b, 0);
        let i = choose|i: int| first_difference(a, b, i);
        assert(first_difference(b, a, i));
    }
}

impl View for Identity {
    type V = Seq<u8>;

    closed spec fn view(&self) -> Seq<u8> {
        self.bytes@
    }
}

impl Identity {
    /// An identity is well formed when it is no longer than
    /// [`MAX_IDENTITY_LEN`] bytes.
    pub open spec fn wf(&self) -> bool {
        self@.len() <= MAX_IDENTITY_LEN
    }

    /// The identity made of `bytes`, unless they are too many.
    pub fn new(bytes: Vec<u8>) -> (made: Option<Identity>)
        ensures
            made is Some <==> bytes@.len() <= MAX_IDENTITY_LEN,
            made is Some ==> made->Some_0@ == bytes@ && made->Some_0.wf(),
    {
        if bytes.len() <= MAX_IDENTITY_LEN {
            Some(Identity { bytes })
        } else {
            None
        }
    }

    /// The bytes of the identity.
    pub fn as_bytes(&self) -> (bytes: &Vec<u8>)
        ensures
            bytes@ == self@,
    {
        &self.bytes
    }

    /// The number of bytes of the identity.
    pub fn len(&self) -> (n: usize)
        ensures
            n == self@.len(),
    {
        self.bytes.len()
    }

    /// Where `self` stands to `other` in the order of identities.
    pub fn compare(&self, other: &Identity) -> (placement: Placement)
        ensures
            placement == Placement::Before <==> identity_lt(self@, other@),
            placement == Placement::Same <==> self@ == other@,
            placement == Placement::After <==> identity_lt(other@, self@),
    {
        let n = self.bytes.len();
        let m = other.bytes.len();
        proof {
            lemma_identity_lt_irreflexive(self@);
            if identity_lt(self@, other@) {
                lemma_identity_lt_asymmetric(self@, other@);
            }
            if identity_lt(other@, self@) {
                lemma_identity_lt_asymmetric(other@, self@);
            }
        }
        if n < m {
            return Placement::Before;
        }
        if n > m {
            return Placement::After;
        }
        let mut i: usize = 0;
        while i < n
            invariant
                n == self.bytes@.len(),
                n == other.bytes@.len(),
                i <= n,
                forall|j: int| 0 <= j < i ==> self.bytes@[j] == other.bytes@[j],
            decreases n - i,
        {
            let x = self.bytes[i];
            let y = other.bytes[i];
            if x < y {
                assert(first_difference(self@, other@, i as int));
                return Placement::Before;
            }
            if x > y {
                assert(first_difference(other@, self@, i as int));
                return Placement::After;
            }
            i += 1;
        }
        assert(self@ =~= other@);
        Placement::Same
    }

    /// Whether the two identities are the same.
    pub fn same_as(&self, other: &Identity) -> (same: bool)
        ensures
            same == (self@ == other@),
    {
        self.compare(other) == Placement::Same
    }
}

impl Clone for Identity {
    fn clone(&self) -> (copy: Self)
        ensures
            copy@ == self@,
    {
        let mut bytes: Vec<u8> = Vec::new();
        let mut i: usize = 0;
        while i < self.bytes.len()
            invariant
                i <= self.bytes@.len(),
                bytes@ == self.bytes@.take(i as int),
            decreases self.bytes@.len() - i,
        {
            bytes.push(self.bytes[i]);
            assert(self.bytes@.take(i as int + 1) =~= self.bytes@.take(i as int).push(self.bytes@[i as int]));
            i += 1;
        }
        assert(self.bytes@.take(i as int) =~= self.bytes@);
        Identity { bytes }
    }
}

} // verus!
