use vstd::prelude::*;
use crate::error::QecError;
use crate::vector::{
    bits_of, common_ones, lemma_support_count, ones_below, valid_positions, zero_bits, BinaryVector,
};

verus! {

/// A single-qubit Pauli operator; phases are not tracked.
#[derive(Debug, Clone, Copy, PartialEq, Eq, Hash, Structural)]
pub enum Pauli {
    I,
    X,
    Y,
    Z,
}

impl Pauli {
    /// Whether the operator has an X component (X or Y).
    pub open spec fn has_x(self) -> bool {
        self == Pauli::X || self == Pauli::Y
    }

    /// Whether the operator has a Z component (Z or Y).
    pub open spec fn has_z(self) -> bool {
        self == Pauli::Z || self == Pauli::Y
    }

    /// The operator with the given X and Z components; Y is X times Z.
    pub open spec fn from_parts(x: bool, z: bool) -> Pauli {
        if x && z {
            Pauli::Y
        } else if x {
            Pauli::X
        } else if z {
            Pauli::Z
        } else {
            Pauli::I
        }
    }

    /// The product up to a phase: X·Y = Z, Y·Z = X, Z·X = Y, P·P = I, I·P = P.
    pub open spec fn times(self, other: Pauli) -> Pauli {
        Pauli::from_parts(self.has_x() != other.has_x(), self.has_z() != other.has_z())
    }

    /// Two single-qubit operators anticommute when both differ from the
    /// identity and from each other.
    pub open spec fn anticommutes(self, other: Pauli) -> bool {
        self != Pauli::I && other != Pauli::I && self != other
    }

    fn x_component(&self) -> (r: bool)
        ensures
            r == self.has_x(),
    {
        match self {
            Pauli::X | Pauli::Y => true,
            _ => false,
        }
    }

    fn z_component(&self) -> (r: bool)
        ensures
            r == self.has_z(),
    {
        match self {
            Pauli::Z | Pauli::Y => true,
            _ => false,
        }
    }

    fn with_parts(x: bool, z: bool) -> (r: Pauli)
        ensures
            r == Pauli::from_parts(x, z),
    {
        if x && z {
            Pauli::Y
        } else if x {
            Pauli::X
        } else if z {
            Pauli::Z
        } else {
            Pauli::I
        }
    }
}

/// How many of the first `n` qubits hold anticommuting labels in `p` and `q`.
pub open spec fn anticommuting_count(p: Seq<Pauli>, q: Seq<Pauli>, n: int) -> nat
    decreases n,
{
    if n <= 0 {
        0
    } else {
        anticommuting_count(p, q, n - 1) + if p[n - 1].anticommutes(q[n - 1]) { 1nat } else { 0nat }
    }
}

/// An operator on several qubits, stored as its X part and its Z part.
#[derive(Debug, Hash)]
pub struct PauliOperator {
    x: BinaryVector,
    z: BinaryVector,
}

impl View for PauliOperator {
    type V = Seq<Pauli>;

    open spec fn view(&self) -> Seq<Pauli> {
        Seq::new(self.x_bits()@.len(), |i: int| Pauli::from_parts(self.x_bits()@[i], self.z_bits()@[i]))
    }
}

impl PauliOperator {
    /// The qubits with an X component.
    pub closed spec fn x_bits(&self) -> BinaryVector {
        self.x
    }

    /// The qubits with a Z component.
    pub closed spec fn z_bits(&self) -> BinaryVector {
        self.z
    }

    /// Both parts are well formed and of one length.
    pub open spec fn wf(&self) -> bool {
        self.x_bits().wf() && self.z_bits().wf() && self.x_bits()@.len() == self.z_bits()@.len()
    }

    /// The operator with X part `x` and Z part `z`.
    pub fn from_parts(x: BinaryVector, z: BinaryVector) -> (r: Self)
        requires
            x.wf(),
            z.wf(),
            x@.len() == z@.len(),
        ensures
            r.wf(),
            r.x_bits() == x,
            r.z_bits() == z,
    {
        PauliOperator { x, z }
    }

    /// The operator on `length` qubits with label `paulis[k]` on qubit
    /// `positions[k]` and the identity elsewhere.
    pub fn new(length: usize, positions: Vec<usize>, paulis: Vec<Pauli>) -> (r: Result<Self, QecError>)
        ensures
            (positions@.len() == paulis@.len() && valid_positions(length as nat, positions@)) ==> (r matches Ok(op)
                && op.wf() && op@.len() == length
                && (forall|k: int| 0 <= k < positions@.len() ==> op@[#[trigger] positions@[k] as int] == paulis@[k])
                && (forall|i: int| 0 <= i < length && !positions@.contains(i as usize) ==> #[trigger] op@[i] == Pauli::I)),
            !(positions@.len() == paulis@.len() && valid_positions(length as nat, positions@))
                ==> r == Err::<Self, QecError>(QecError::InvalidConstruction),
    {
        if positions.len() != paulis.len() {
            return Err(QecError::InvalidConstruction);
        }
        let check = BinaryVector::new(length, positions.clone());
        if check.is_err() {
            return Err(QecError::InvalidConstruction);
        }
        let mut xs: Vec<bool> = Vec::new();
        let mut zs: Vec<bool> = Vec::new();
        let mut t: usize = 0;
        while t < length
            invariant
                t <= length,
                xs@ =~= zero_bits(t as nat),
                zs@ =~= zero_bits(t as nat),
            decreases length - t,
        {
            xs.push(false);
            zs.push(false);
            t = t + 1;
        }
        let mut k: usize = 0;
        while k < positions.len()
            invariant
                positions@.len() == paulis@.len(),
                valid_positions(length as nat, positions@),
                k <= positions@.len(),
                xs@.len() == length,
                zs@.len() == length,
                forall|i: int|
                    0 <= i < length ==> #[trigger] xs@[i] == (exists|j: int| 0 <= j < k && positions@[j] == i && paulis@[j].has_x()),
                forall|i: int|
                    0 <= i < length ==> #[trigger] zs@[i] == (exists|j: int| 0 <= j < k && positions@[j] == i && paulis@[j].has_z()),
            decreases positions@.len() - k,
        {
            let p = positions[k];
            let label = paulis[k];
            let ghost bx = xs@;
            let ghost bz = zs@;
            xs.set(p, label.x_component());
            zs.set(p, label.z_component());
            assert forall|i: int| 0 <= i < length implies #[trigger] xs@[i] == (exists|j: int| 0 <= j < k + 1 && positions@[j] == i && paulis@[j].has_x()) by {
                if i == p {
                    if exists|j: int| 0 <= j < k && positions@[j] == i && paulis@[j].has_x() {
                        let j = choose|j: int| 0 <= j < k && positions@[j] == i && paulis@[j].has_x();
                        assert(positions@[j] != positions@[k as int]);
                    }
                } else {
                    assert(xs@[i] == bx[i]);
                }
            }
            assert forall|i: int| 0 <= i < length implies #[trigger] zs@[i] == (exists|j: int| 0 <= j < k + 1 && positions@[j] == i && paulis@[j].has_z()) by {
                if i == p {
                    if exists|j: int| 0 <= j < k && positions@[j] == i && paulis@[j].has_z() {
                        let j = choose|j: int| 0 <= j < k && positions@[j] == i && paulis@[j].has_z();
                        assert(positions@[j] != positions@[k as int]);
                    }
                } else {
                    assert(zs@[i] == bz[i]);
                }
            }
            k = k + 1;
        }
        let op = PauliOperator { x: BinaryVector::from_bits(&xs), z: BinaryVector::from_bits(&zs) };
        assert forall|k: int| 0 <= k < positions@.len() implies op@[#[trigger] positions@[k] as int] == paulis@[k] by {
            let i = positions@[k] as int;
            assert(xs@[i] == paulis@[k].has_x()) by {
                if xs@[i] {
                    let j = choose|j: int| 0 <= j < positions@.len() && positions@[j] == i && paulis@[j].has_x();
                    assert(j == k);
                }
            }
            assert(zs@[i] == paulis@[k].has_z()) by {
                if zs@[i] {
                    let j = choose|j: int| 0 <= j < positions@.len() && positions@[j] == i && paulis@[j].has_z();
                    assert(j == k);
                }
            }
        }
        assert forall|i: int| 0 <= i < length && !positions@.contains(i as usize) implies #[trigger] op@[i] == Pauli::I by {
            if xs@[i] {
                let j = choose|j: int| 0 <= j < positions@.len() && positions@[j] == i && paulis@[j].has_x();
                assert(positions@[j] == i as usize);
            }
            if zs@[i] {
                let j = choose|j: int| 0 <= j < positions@.len() && positions@[j] == i && paulis@[j].has_z();
                assert(positions@[j] == i as usize);
            }
        }
        Ok(op)
    }

    /// The number of qubits.
    pub fn len(&self) -> (r: usize)
        requires
            self.wf(),
        ensures
            r == self@.len(),
    {
        self.x.len()
    }

    /// The qubits where the operator is not the identity, in increasing order.
    pub fn non_trivial_positions(&self) -> (r: Vec<usize>)
        requires
            self.wf(),
        ensures
            crate::vector::strictly_increasing(r@),
            forall|i: usize| r@.contains(i) <==> (i < self@.len() && self@[i as int] != Pauli::I),
    {
        let u = self.x.union(&self.z);
        let r = u.positions_vec();
        assert forall|i: usize| r@.contains(i) <==> (i < self@.len() && self@[i as int] != Pauli::I) by {
            if r@.contains(i) {
                let k = choose|k: int| 0 <= k < r@.len() && r@[k] == i;
                assert(u.support()[k] == i);
                assert(i < u@.len());
                assert(u.support().contains(i));
                assert(u@[i as int]);
            }
            if i < self@.len() && self@[i as int] != Pauli::I {
                assert(self.x_bits()@[i as int] || self.z_bits()@[i as int]);
                assert(u@.len() == self@.len());
                assert(u@[i as int]);
                assert(bits_of(u.dim(), u.support())[i as int] == u.support().contains(i));
                assert(r@.contains(i));
            }
        }
        r
    }

    /// The number of qubits where the operator is not the identity.
    pub fn weight(&self) -> (r: usize)
        requires
            self.wf(),
        ensures
            r == ones_below(Seq::new(self@.len(), |i: int| self@[i] != Pauli::I), self@.len() as int),
    {
        let u = self.x.union(&self.z);
        proof {
            lemma_support_count(&u);
            assert(u@ =~= Seq::new(self@.len(), |i: int| self@[i] != Pauli::I));
        }
        u.weight()
    }

    /// The label on qubit `position`.
    pub fn get(&self, position: usize) -> (r: Result<Pauli, QecError>)
        requires
            self.wf(),
        ensures
            position < self@.len() ==> r == Ok::<Pauli, QecError>(self@[position as int]),
            position >= self@.len() ==> r == Err::<Pauli, QecError>(QecError::OutOfBounds),
    {
        if position >= self.x.len() {
            return Err(QecError::OutOfBounds);
        }
        let x = self.x.has_position(position);
        let z = self.z.has_position(position);
        Ok(Pauli::with_parts(x, z))
    }

    /// Whether the two operators anticommute; they must act on the same
    /// number of qubits.
    pub fn anticommutes(&self, other: &Self) -> (r: bool)
        requires
            self.wf(),
            other.wf(),
            self@.len() == other@.len(),
        ensures
            r == (anticommuting_count(self@, other@, self@.len() as int) % 2 == 1),
    {
        let a = self.x.dot(&other.z);
        let b = self.z.dot(&other.x);
        proof {
            lemma_anticommuting_count(self, other, self@.len() as int);
        }
        a != b
    }

    /// Whether the two operators commute: fails unless they act on the same
    /// number of qubits.
    pub fn commutes_with(&self, other: &Self) -> (r: Result<bool, QecError>)
        requires
            self.wf(),
            other.wf(),
        ensures
            self@.len() != other@.len() ==> r == Err::<bool, QecError>(QecError::DimensionMismatch),
            self@.len() == other@.len() ==> r == Ok::<bool, QecError>(
                anticommuting_count(self@, other@, self@.len() as int) % 2 == 0,
            ),
    {
        if self.x.len() != other.x.len() {
            return Err(QecError::DimensionMismatch);
        }
        Ok(!self.anticommutes(other))
    }

    /// Whether the two operators anticommute: fails unless they act on the
    /// same number of qubits.
    pub fn anticommutes_with(&self, other: &Self) -> (r: Result<bool, QecError>)
        requires
            self.wf(),
            other.wf(),
        ensures
            self@.len() != other@.len() ==> r == Err::<bool, QecError>(QecError::DimensionMismatch),
            self@.len() == other@.len() ==> r == Ok::<bool, QecError>(
                anticommuting_count(self@, other@, self@.len() as int) % 2 == 1,
            ),
    {
        if self.x.len() != other.x.len() {
            return Err(QecError::DimensionMismatch);
        }
        Ok(self.anticommutes(other))
    }

    /// The qubit-wise product, up to a phase: fails unless the two operators
    /// act on the same number of qubits.
    pub fn apply(&self, other: &Self) -> (r: Result<Self, QecError>)
        requires
            self.wf(),
            other.wf(),
        ensures
            self@.len() != other@.len() ==> r == Err::<Self, QecError>(QecError::DimensionMismatch),
            self@.len() == other@.len() ==> (r matches Ok(op) && op.wf()
                && op@ == Seq::new(self@.len(), |i: int| self@[i].times(other@[i]))),
    {
        if self.x.len() != other.x.len() {
            return Err(QecError::DimensionMismatch);
        }
        let op = PauliOperator { x: self.x.xor(&other.x), z: self.z.xor(&other.z) };
        assert(op@ =~= Seq::new(self@.len(), |i: int| self@[i].times(other@[i])));
        Ok(op)
    }

    /// The X component of every qubit: X where the operator is X or Y.
    pub fn x_part(&self) -> (r: Self)
        requires
            self.wf(),
        ensures
            r.wf(),
            r@ == Seq::new(self@.len(), |i: int| if self@[i].has_x() { Pauli::X } else { Pauli::I }),
    {
        let op = PauliOperator { x: self.x.clone(), z: BinaryVector::zeros(self.x.len()) };
        assert(op@ =~= Seq::new(self@.len(), |i: int| if self@[i].has_x() { Pauli::X } else { Pauli::I }));
        op
    }

    /// The Z component of every qubit: Z where the operator is Z or Y.
    pub fn z_part(&self) -> (r: Self)
        requires
            self.wf(),
        ensures
            r.wf(),
            r@ == Seq::new(self@.len(), |i: int| if self@[i].has_z() { Pauli::Z } else { Pauli::I }),
    {
        let op = PauliOperator { x: BinaryVector::zeros(self.x.len()), z: self.z.clone() };
        assert(op@ =~= Seq::new(self@.len(), |i: int| if self@[i].has_z() { Pauli::Z } else { Pauli::I }));
        op
    }

    /// The X part and the Z part.
    pub fn partition_x_and_z(&self) -> (r: (Self, Self))
        requires
            self.wf(),
        ensures
            r.0.wf(),
            r.1.wf(),
            r.0@ == Seq::new(self@.len(), |i: int| if self@[i].has_x() { Pauli::X } else { Pauli::I }),
            r.1@ == Seq::new(self@.len(), |i: int| if self@[i].has_z() { Pauli::Z } else { Pauli::I }),
    {
        (self.x_part(), self.z_part())
    }

    /// The qubits with an X component, as a binary vector.
    pub fn x_vector(&self) -> (r: &BinaryVector)
        ensures
            r == self.x_bits(),
    {
        &self.x
    }

    /// The qubits with a Z component, as a binary vector.
    pub fn z_vector(&self) -> (r: &BinaryVector)
        ensures
            r == self.z_bits(),
    {
        &self.z
    }
}

/// The anticommuting count has the parity of the symplectic product of the
/// two operators' parts.
proof fn lemma_anticommuting_count(p: &PauliOperator, q: &PauliOperator, n: int)
    requires
        p.wf(),
        q.wf(),
        p@.len() == q@.len(),
        0 <= n <= p@.len(),
    ensures
        anticommuting_count(p@, q@, n) % 2 == (common_ones(p.x_bits()@, q.z_bits()@, n) + common_ones(
            p.z_bits()@,
            q.x_bits()@,
            n,
        )) % 2,
    decreases n,
{
    if n > 0 {
        lemma_anticommuting_count(p, q, n - 1);
    }
}

impl Clone for PauliOperator {
    fn clone(&self) -> (r: Self)
        ensures
            r.same_as(self),
    {
        PauliOperator { x: self.x.clone(), z: self.z.clone() }
    }
}

impl PauliOperator {
    /// The stored parts agree; this is what `==` compares.
    pub open spec fn same_as(&self, other: &Self) -> bool {
        self.x_bits().same_as(&other.x_bits()) && self.z_bits().same_as(&other.z_bits())
    }
}

impl PartialEq for PauliOperator {
    fn eq(&self, other: &Self) -> (r: bool) {
        self.x == other.x && self.z == other.z
    }
}

impl vstd::std_specs::cmp::PartialEqSpecImpl for PauliOperator {
    open spec fn obeys_eq_spec() -> bool {
        true
    }

    open spec fn eq_spec(&self, other: &PauliOperator) -> bool {
        self.same_as(other)
    }
}

impl Eq for PauliOperator {
}

/// An operator applied to itself is the identity on every qubit: a result
/// of `p.apply(&p)` has only identity labels.
pub proof fn lemma_apply_self_is_identity(p: &PauliOperator)
    requires
        p.wf(),
    ensures
        Seq::new(p@.len(), |i: int| p@[i].times(p@[i])) == Seq::new(p@.len(), |i: int| Pauli::I),
{
    assert(Seq::new(p@.len(), |i: int| p@[i].times(p@[i])) =~= Seq::new(p@.len(), |i: int| Pauli::I));
}

} // verus!
