//! In-circuit MiMC and transcript: the same arithmetic as the native ones,
//! computed on wires of a constraint system.
use crate::field::{vals, PrimeField};
use crate::hash::{mimc_constants, mimc_round, mimc_spec, squeeze_spec, Mimc};
use crate::r1cs::{eval, lemma_extends_trans, lemma_value_kept, wire_vals, wires_below, ConstraintSystem, Expression};
use vstd::prelude::*;

verus! {

/// Every expression of `es` uses only wires below `n`.
pub open spec fn all_wires_below<F: PrimeField>(es: Seq<Expression<F>>, n: nat) -> bool {
    forall|i: int| 0 <= i < es.len() ==> wires_below(#[trigger] es[i], n)
}

/// Values of expressions under the wire values `w`.
pub open spec fn values_at<F: PrimeField>(es: Seq<Expression<F>>, w: Seq<nat>) -> Seq<nat> {
    es.map_values(|e: Expression<F>| eval(e, w))
}

/// Values of expressions under a system's wires.
pub open spec fn values<F: PrimeField>(es: Seq<Expression<F>>, cs: &ConstraintSystem<F>) -> Seq<nat> {
    values_at(es, wire_vals(cs))
}

/// MiMC over wires.
pub struct MimcAssignment<F: PrimeField> {
    constants: Vec<F>,
}

impl<F: PrimeField> MimcAssignment<F> {
    pub closed spec fn constant_vals(&self) -> Seq<nat> {
        vals(self.constants@)
    }

    /// Uses the same public round constants as the native permutation.
    pub fn new() -> (r: Self)
        ensures
            r.constant_vals() == mimc_constants(F::modulus()),
    {
        let native = Mimc::<F>::new();
        let src = native.constants();
        let mut constants: Vec<F> = Vec::new();
        let mut i: usize = 0;
        while i < src.len()
            invariant
                i <= src@.len(),
                constants@ =~= src@.subrange(0, i as int),
            decreases src@.len() - i,
        {
            constants.push(src[i]);
            proof {
                assert(src@.subrange(0, i + 1) =~= src@.subrange(0, i as int).push(src@[i as int]));
            }
            i = i + 1;
        }
        proof {
            assert(src@.subrange(0, src@.len() as int) =~= src@);
        }
        MimcAssignment { constants }
    }

    /// The permutation on `(xl, xr)`, constrained round by round.
    pub fn hash(&self, cs: &mut ConstraintSystem<F>, xl: Expression<F>, xr: Expression<F>) -> (r: Expression<F>)
        requires
            old(cs).wf(),
            wires_below(xl, old(cs).num_wires()),
            wires_below(xr, old(cs).num_wires()),
        ensures
            final(cs).wf(),
            final(cs).extends(old(cs)),
            old(cs).satisfied() ==> final(cs).satisfied(),
            wires_below(r, final(cs).num_wires()),
            r.value(final(cs)) == mimc_spec(
                self.constant_vals(),
                xl.value(old(cs)),
                xr.value(old(cs)),
                F::modulus(),
            ),
            final(cs).constraints@.len() - old(cs).constraints@.len() == final(cs).wire_values@.len()
                - old(cs).wire_values@.len(),
            final(cs).constraints@.len() <= old(cs).constraints@.len() + 2 * self.constant_vals().len(),
            xl.terms@.len() > 0 ==> final(cs).constraints@.len() == old(cs).constraints@.len() + 2
                * self.constant_vals().len(),
    {
        let ghost cv = self.constant_vals();
        let ghost p = F::modulus();
        let ghost target = mimc_spec(cv, xl.value(cs), xr.value(cs), p);
        let mut l = xl;
        let mut r = xr;
        let mut i: usize = 0;
        proof {
            assert(cv.subrange(0, cv.len() as int) =~= cv);
            assert(cs.wire_values@.subrange(0, cs.wire_values@.len() as int) =~= cs.wire_values@);
            assert(cs.constraints@.subrange(0, cs.constraints@.len() as int) =~= cs.constraints@);
        }
        while i < self.constants.len()
            invariant
                cv == self.constant_vals(),
                p == F::modulus(),
                cv.len() == self.constants@.len(),
                i <= cv.len(),
                cs.wf(),
                cs.extends(old(cs)),
                old(cs).satisfied() ==> cs.satisfied(),
                wires_below(l, cs.num_wires()),
                wires_below(r, cs.num_wires()),
                mimc_spec(cv.subrange(i as int, cv.len() as int), l.value(cs), r.value(cs), p) == target,
                cs.constraints@.len() - old(cs).constraints@.len() == cs.wire_values@.len() - old(cs).wire_values@.len(),
                cs.constraints@.len() <= old(cs).constraints@.len() + 2 * i,
                xl.terms@.len() > 0 ==> l.terms@.len() > 0 && cs.constraints@.len() == old(cs).constraints@.len() + 2 * i,
            decreases cv.len() - i,
        {
            let ghost cs0 = *cs;
            let c = Expression::constant(&self.constants[i]);
            let cxl = l.add(&c);
            let sq = cs.product(&cxl, &cxl);
            let ghost cs1 = *cs;
            proof {
                lemma_value_kept(cxl, &cs0, &cs1);
            }
            let cube = cs.product(&sq, &cxl);
            let ghost cs2 = *cs;
            proof {
                lemma_extends_trans(&cs0, &cs1, &cs2);
                lemma_extends_trans(old(cs), &cs0, &cs2);
                lemma_value_kept(r, &cs0, &cs2);
                lemma_value_kept(l, &cs0, &cs2);
            }
            let next = cube.add(&r);
            proof {
                let rest = cv.subrange(i as int, cv.len() as int);
                assert(rest.drop_first() =~= cv.subrange(i + 1, cv.len() as int));
                assert(rest[0] == self.constants@[i as int].val());
                assert(next.value(cs) == mimc_round(rest[0], l.value(&cs0), r.value(&cs0), p));
            }
            r = l;
            l = next;
            i = i + 1;
        }
        proof {
            assert(cv.subrange(cv.len() as int, cv.len() as int) =~= Seq::<nat>::empty());
        }
        l
    }
}

/// A point on wires: coordinates and `z`, which is 0 for the identity and 1 otherwise.
pub struct PointAssignment<F: PrimeField> {
    pub x: Expression<F>,
    pub y: Expression<F>,
    pub z: Expression<F>,
}

impl<F: PrimeField> PointAssignment<F> {
    pub open spec fn wires_below(&self, n: nat) -> bool {
        wires_below(self.x, n) && wires_below(self.y, n) && wires_below(self.z, n)
    }

    pub fn duplicate(&self) -> (r: Self)
        ensures
            r.x.terms@ == self.x.terms@ && r.x.constant == self.x.constant,
            r.y.terms@ == self.y.terms@ && r.y.constant == self.y.constant,
            r.z.terms@ == self.z.terms@ && r.z.constant == self.z.constant,
    {
        PointAssignment { x: self.x.duplicate(), y: self.y.duplicate(), z: self.z.duplicate() }
    }
}

/// The transcript on wires.
pub struct MimcROCircuit<F: PrimeField> {
    hasher: MimcAssignment<F>,
    state: Vec<Expression<F>>,
    key: Expression<F>,
}

impl<F: PrimeField> MimcROCircuit<F> {
    pub closed spec fn state_seq(&self) -> Seq<Expression<F>> {
        self.state@
    }

    pub closed spec fn key_expr(&self) -> Expression<F> {
        self.key
    }

    pub closed spec fn constant_vals(&self) -> Seq<nat> {
        self.hasher.constant_vals()
    }

    /// An empty transcript with the constant key zero.
    pub fn new() -> (r: Self)
        ensures
            r.state_seq() == Seq::<Expression<F>>::empty(),
            r.key_expr().terms@.len() == 0,
            forall|w: Seq<nat>| #[trigger] eval(r.key_expr(), w) == 0,
            r.constant_vals() == mimc_constants(F::modulus()),
    {
        let zero = F::zero();
        let r = MimcROCircuit { hasher: MimcAssignment::new(), state: Vec::new(), key: Expression::constant(&zero) };
        proof {
            assert(r.state@ =~= Seq::<Expression<F>>::empty());
        }
        r
    }

    /// Pushes one expression.
    pub fn append(&mut self, absorb: Expression<F>)
        ensures
            final(self).state_seq() == old(self).state_seq().push(absorb),
            final(self).key_expr() == old(self).key_expr(),
            final(self).constant_vals() == old(self).constant_vals(),
    {
        self.state.push(absorb);
    }

    /// Absorbs `x`, `y` and `z`, in that order.
    pub fn append_point(&mut self, point: &PointAssignment<F>)
        ensures
            forall|w: Seq<nat>|
                #[trigger] values_at(final(self).state_seq(), w) == values_at(old(self).state_seq(), w)
                    + seq![eval(point.x, w), eval(point.y, w), eval(point.z, w)],
            forall|n: nat|
                all_wires_below(old(self).state_seq(), n) && point.wires_below(n)
                    ==> #[trigger] all_wires_below(final(self).state_seq(), n),
            final(self).key_expr() == old(self).key_expr(),
            final(self).constant_vals() == old(self).constant_vals(),
    {
        let d = point.duplicate();
        self.append(d.x);
        self.append(d.y);
        self.append(d.z);
        proof {
            let n0 = old(self).state@.len();
            assert(self.state@ == old(self).state@.push(d.x).push(d.y).push(d.z));
            assert forall|w: Seq<nat>|
                #[trigger] values_at(self.state@, w) == values_at(old(self).state@, w)
                    + seq![eval(point.x, w), eval(point.y, w), eval(point.z, w)] by {
                assert(values_at(self.state@, w) =~= values_at(old(self).state@, w)
                    + seq![eval(point.x, w), eval(point.y, w), eval(point.z, w)]);
            }
            assert forall|n: nat|
                all_wires_below(old(self).state@, n) && point.wires_below(n)
                    implies #[trigger] all_wires_below(self.state@, n) by {
                assert forall|i: int| 0 <= i < self.state@.len() implies wires_below(#[trigger] self.state@[i], n) by {
                    if i < n0 {
                        assert(self.state@[i] == old(self).state@[i]);
                    }
                }
            }
        }
    }

    /// Folds the absorbed expressions from the key through in-circuit MiMC.
    pub fn squeeze(&self, cs: &mut ConstraintSystem<F>) -> (r: Expression<F>)
        requires
            old(cs).wf(),
            all_wires_below(self.state_seq(), old(cs).num_wires()),
            wires_below(self.key_expr(), old(cs).num_wires()),
        ensures
            final(cs).wf(),
            final(cs).extends(old(cs)),
            old(cs).satisfied() ==> final(cs).satisfied(),
            wires_below(r, final(cs).num_wires()),
            r.value(final(cs)) == squeeze_spec(
                self.constant_vals(),
                self.key_expr().value(old(cs)),
                values(self.state_seq(), old(cs)),
                F::modulus(),
            ),
    {
        let ghost cv = self.constant_vals();
        let ghost p = F::modulus();
        let ghost st = values(self.state@, cs);
        let ghost keyv = self.key.value(cs);
        let mut acc = self.key.duplicate();
        let mut i: usize = 0;
        proof {
            assert(st.subrange(0, 0) =~= Seq::<nat>::empty());
            assert(cs.wire_values@.subrange(0, cs.wire_values@.len() as int) =~= cs.wire_values@);
            assert(cs.constraints@.subrange(0, cs.constraints@.len() as int) =~= cs.constraints@);
        }
        while i < self.state.len()
            invariant
                cv == self.constant_vals(),
                p == F::modulus(),
                st == values(self.state@, old(cs)),
                keyv == self.key.value(old(cs)),
                st.len() == self.state@.len(),
                i <= st.len(),
                all_wires_below(self.state@, old(cs).num_wires()),
                cs.wf(),
                cs.extends(old(cs)),
                old(cs).satisfied() ==> cs.satisfied(),
                wires_below(acc, cs.num_wires()),
                acc.value(cs) == squeeze_spec(cv, keyv, st.subrange(0, i as int), p),
            decreases st.len() - i,
        {
            let ghost cs0 = *cs;
            let e = self.state[i].duplicate();
            proof {
                assert(wires_below(self.state@[i as int], old(cs).num_wires()));
                lemma_value_kept(e, old(cs), &cs0);
            }
            let h = self.hasher.hash(cs, e.duplicate(), acc.duplicate());
            let ghost cs1 = *cs;
            proof {
                lemma_extends_trans(old(cs), &cs0, &cs1);
                lemma_value_kept(e, old(cs), &cs1);
                lemma_value_kept(acc, &cs0, &cs1);
            }
            let sum = acc.add(&e);
            let next = sum.add(&h);
            proof {
                let pre = st.subrange(0, i + 1);
                assert(pre.drop_last() =~= st.subrange(0, i as int));
                assert(pre.last() == st[i as int]);
                assert(st[i as int] == e.value(old(cs)));
            }
            acc = next;
            i = i + 1;
        }
        proof {
            assert(st.subrange(0, st.len() as int) =~= st);
        }
        acc
    }

    /// Absorbs `values` and squeezes.
    pub fn hash_vec(&mut self, cs: &mut ConstraintSystem<F>, values: Vec<Expression<F>>) -> (r: Expression<F>)
        requires
            old(cs).wf(),
            all_wires_below(old(self).state_seq(), old(cs).num_wires()),
            all_wires_below(values@, old(cs).num_wires()),
            wires_below(old(self).key_expr(), old(cs).num_wires()),
        ensures
            final(self).state_seq() == old(self).state_seq() + values@,
            final(cs).wf(),
            final(cs).extends(old(cs)),
            old(cs).satisfied() ==> final(cs).satisfied(),
            wires_below(r, final(cs).num_wires()),
            r.value(final(cs)) == squeeze_spec(
                old(self).constant_vals(),
                old(self).key_expr().value(old(cs)),
                crate::circuit::values(old(self).state_seq() + values@, old(cs)),
                F::modulus(),
            ),
    {
        let mut values = values;
        let ghost vs = values@;
        let ghost s0 = self.state@;
        let mut rest: Vec<Expression<F>> = Vec::new();
        // Pop from the back to move each expression, then push in order.
        while values.len() > 0
            invariant
                values@ + rest@.reverse() == vs,
            decreases values@.len(),
        {
            let e = values.pop().unwrap();
            proof {
                assert(values@.push(e) + rest@.reverse() =~= values@ + rest@.push(e).reverse());
            }
            rest.push(e);
        }
        proof {
            assert(rest@.reverse() =~= vs);
        }
        while rest.len() > 0
            invariant
                self.state@ + rest@.reverse() == s0 + vs,
                self.key == old(self).key,
                self.hasher == old(self).hasher,
            decreases rest@.len(),
        {
            let e = rest.pop().unwrap();
            proof {
                assert(self.state@.push(e) + rest@.reverse() =~= self.state@ + rest@.push(e).reverse());
            }
            self.state.push(e);
        }
        proof {
            assert(self.state@ =~= s0 + vs);
            assert forall|i: int| 0 <= i < self.state@.len() implies wires_below(#[trigger] self.state@[i], old(cs).num_wires()) by {
                if i >= s0.len() {
                    assert(self.state@[i] == vs[i - s0.len()]);
                }
            }
        }
        self.squeeze(cs)
    }
}

/// A native transcript and an in-circuit one that absorbed the same values in
/// the same order, from the same key and constants, squeeze to the same value.
pub proof fn lemma_transcript_agreement<F: PrimeField>(
    native: &crate::hash::MimcRO<F>,
    circuit: &MimcROCircuit<F>,
    cs: &ConstraintSystem<F>,
)
    requires
        native.constant_vals() == circuit.constant_vals(),
        native.key_val() == circuit.key_expr().value(cs),
        native.absorbed() == values(circuit.state_seq(), cs),
    ensures
        squeeze_spec(native.constant_vals(), native.key_val(), native.absorbed(), F::modulus())
            == squeeze_spec(
            circuit.constant_vals(),
            circuit.key_expr().value(cs),
            values(circuit.state_seq(), cs),
            F::modulus(),
        ),
{
}

} // verus!
