//! The environment: registries of unit classes and units, the global
//! symbol table, and the unit-algebra operations over them.

use crate::algebra::{
    div_map, exp_of, iabs, lemma_canonical, lemma_exp_of_div, lemma_exp_of_mul, lemma_iabs_mul,
    lemma_key_present, lemma_merge_rec, lemma_seq_exp_at, lemma_seq_exp_bounds,
    lemma_seq_exp_elementwise_neg, merge_rec, mul_map, seq_exp, wf_pairs, ExponentMap,
};
use crate::formula::{Scalar, Symbol, Value};
use crate::storage::ItemStorage;
use crate::unit::{positive_ratio_bits, CompositeUnit, CompositeUnitClass, Unit, UnitClass};
use vstd::prelude::*;

verus! {

/// The dimension exponent that one power of unit `j` contributes to unit
/// class `c`.
pub open spec fn class_exp(units: Seq<Unit>, j: u64, c: u64) -> int {
    if (j as int) < units.len() {
        exp_of(units[j as int].base_class@, c)
    } else {
        0
    }
}

/// The exponent of unit class `c` in the base dimension of the compound
/// unit with component list `s`: the sum, over the components, of the
/// component's power times its unit's own class exponent.
pub open spec fn base_exp(units: Seq<Unit>, s: Seq<(u64, i64)>, c: u64) -> int
    decreases s.len(),
{
    if s.len() == 0 {
        0
    } else {
        s[0].1 * class_exp(units, s[0].0, c) + base_exp(units, s.skip(1), c)
    }
}

/// The same sum over absolute values; it bounds every intermediate value
/// of the accumulation below, so it is what the machine-integer limit is
/// stated over.
pub open spec fn abs_base_exp(units: Seq<Unit>, s: Seq<(u64, i64)>, c: u64) -> int
    decreases s.len(),
{
    if s.len() == 0 {
        0
    } else {
        iabs(s[0].1 as int) * iabs(class_exp(units, s[0].0, c)) + abs_base_exp(
            units,
            s.skip(1),
            c,
        )
    }
}

/// The base dimension of a compound unit, as an abstract exponent map.
pub open spec fn base_map(units: Seq<Unit>, s: Seq<(u64, i64)>) -> Map<u64, int> {
    Map::new(|c: u64| base_exp(units, s, c) != 0, |c: u64| base_exp(units, s, c))
}

/// The value the symbol table binds a name to: the first entry carrying
/// the name, if any.
pub open spec fn sym_lookup(s: Seq<(Symbol, Value)>, n: Seq<char>) -> Option<Value>
    decreases s.len(),
{
    if s.len() == 0 {
        Option::None
    } else if s[0].0.name@ == n {
        Option::Some(s[0].1)
    } else {
        sym_lookup(s.skip(1), n)
    }
}

/// The absolute-value sum is never negative.
pub proof fn lemma_abs_base_exp_nonneg(units: Seq<Unit>, s: Seq<(u64, i64)>, c: u64)
    ensures
        0 <= abs_base_exp(units, s, c),
    decreases s.len(),
{
    if s.len() > 0 {
        lemma_abs_base_exp_nonneg(units, s.skip(1), c);
        let a = iabs(s[0].1 as int);
        let b = iabs(class_exp(units, s[0].0, c));
        assert(a * b >= 0) by (nonlinear_arith)
            requires
                a >= 0,
                b >= 0,
        ;
    }
}

/// A nonzero base exponent comes from some component whose unit's own
/// dimension carries the class.
pub proof fn lemma_base_exp_nonzero_key(units: Seq<Unit>, s: Seq<(u64, i64)>, c: u64)
    requires
        base_exp(units, s, c) != 0,
    ensures
        exists|i: int|
            0 <= i < s.len() && class_exp(units, (#[trigger] s[i]).0, c) != 0,
    decreases s.len(),
{
    if s[0].1 * class_exp(units, s[0].0, c) != 0 {
        assert(class_exp(units, s[0].0, c) != 0) by {
            if class_exp(units, s[0].0, c) == 0 {
                assert(s[0].1 * 0 == 0) by (nonlinear_arith);
            }
        }
    } else {
        lemma_base_exp_nonzero_key(units, s.skip(1), c);
        let w = choose|i: int|
            0 <= i < s.skip(1).len() && class_exp(units, (#[trigger] s.skip(1)[i]).0, c) != 0;
        assert(s[w + 1] == s.skip(1)[w]);
    }
}

/// The registry owning all unit classes and units, plus the global symbol
/// table.  All unit-algebra operations are pure functions of the
/// registered tables; registration only appends, symbol binding only
/// inserts or overwrites.
pub struct Environment {
    unit_classes: ItemStorage<UnitClass>,
    units: ItemStorage<Unit>,
    global_symbols: Vec<(Symbol, Value)>,
}

impl Environment {
    /// The registered unit classes, in registration order; an identity is
    /// an index into this sequence.
    pub closed spec fn classes_seq(&self) -> Seq<UnitClass> {
        self.unit_classes@
    }

    /// The registered units, in registration order; an identity is an
    /// index into this sequence.
    pub closed spec fn units_seq(&self) -> Seq<Unit> {
        self.units@
    }

    /// The global symbol bindings, each name carried once.
    pub closed spec fn symbols_seq(&self) -> Seq<(Symbol, Value)> {
        self.global_symbols@
    }

    /// Every registered unit has a canonical dimension over registered
    /// classes and a positive finite ratio; every symbol name is bound at
    /// most once.
    pub open spec fn wf(&self) -> bool {
        &&& forall|j: int|
            0 <= j < self.units_seq().len() ==> (#[trigger] self.units_seq()[j]).base_class.wf()
        &&& forall|j: int, i: int|
            0 <= j < self.units_seq().len() && 0 <= i < (
            #[trigger] self.units_seq()[j]).base_class.components.pairs_seq().len() ==> (
            #[trigger] self.units_seq()[j].base_class.components.pairs_seq()[i]).0
                < self.classes_seq().len()
        &&& forall|j: int|
            0 <= j < self.units_seq().len() ==> positive_ratio_bits(
                (#[trigger] self.units_seq()[j]).base_ratio_bits,
            )
        &&& forall|x: int, y: int|
            0 <= x < y < self.symbols_seq().len() ==> (#[trigger] self.symbols_seq()[x]).0.name@
                != (#[trigger] self.symbols_seq()[y]).0.name@
    }

    /// A compound unit speaks only of registered units.
    pub open spec fn valid_unit(&self, u: CompositeUnit) -> bool {
        forall|i: int|
            0 <= i < u.components.pairs_seq().len() ==> (#[trigger] u.components.pairs_seq()[i]).0
                < self.units_seq().len()
    }

    /// A compound dimension speaks only of registered unit classes.
    pub open spec fn valid_class(&self, u: CompositeUnitClass) -> bool {
        forall|i: int|
            0 <= i < u.components.pairs_seq().len() ==> (#[trigger] u.components.pairs_seq()[i]).0
                < self.classes_seq().len()
    }

    /// A scalar is meaningful only against the environment that made it:
    /// its dimension is exactly the base dimension of its display unit,
    /// and its precision is at least one.
    pub open spec fn scalar_wf(&self, s: Scalar) -> bool {
        &&& s.precision >= 1
        &&& s.display_unit.wf()
        &&& self.valid_unit(s.display_unit)
        &&& s.base_unit.wf()
        &&& self.valid_class(s.base_unit)
        &&& s.base_unit@ == base_map(self.units_seq(), s.display_unit.components.pairs_seq())
    }

    /// An empty environment: registration of the session's unit classes,
    /// units and symbols is its callers' concern.
    pub fn new() -> (r: Self)
        ensures
            r.wf(),
            r.classes_seq() == Seq::<UnitClass>::empty(),
            r.units_seq() == Seq::<Unit>::empty(),
            r.symbols_seq() == Seq::<(Symbol, Value)>::empty(),
    {
        Environment {
            unit_classes: ItemStorage::new(),
            units: ItemStorage::new(),
            global_symbols: Vec::new(),
        }
    }

    /// Registers a primitive dimension and returns its fresh identity.
    pub fn register_unit_class(&mut self, name: String) -> (id: u64)
        requires
            old(self).wf(),
        ensures
            final(self).wf(),
            final(self).classes_seq() == old(self).classes_seq().push((UnitClass { name })),
            id == old(self).classes_seq().len(),
            final(self).units_seq() == old(self).units_seq(),
            final(self).symbols_seq() == old(self).symbols_seq(),
    {
        let id = self.unit_classes.add(UnitClass { name });
        proof {
            assert(self.units_seq() == old(self).units_seq());
            assert(self.symbols_seq() == old(self).symbols_seq());
            assert(self.classes_seq().len() == old(self).classes_seq().len() + 1);
        }
        id
    }

    /// Registers a concrete unit with its dimension and conversion-ratio
    /// bit pattern, and returns its fresh identity.
    pub fn register_unit(&mut self, name: String, base_class: CompositeUnitClass, base_ratio_bits: u64) -> (id:
        u64)
        requires
            old(self).wf(),
            base_class.wf(),
            old(self).valid_class(base_class),
            positive_ratio_bits(base_ratio_bits),
        ensures
            final(self).wf(),
            final(self).units_seq() == old(self).units_seq().push(
                (Unit { name, base_class, base_ratio_bits }),
            ),
            id == old(self).units_seq().len(),
            final(self).classes_seq() == old(self).classes_seq(),
            final(self).symbols_seq() == old(self).symbols_seq(),
    {
        let id = self.units.add(Unit { name, base_class, base_ratio_bits });
        proof {
            let t = self.units_seq();
            let o = old(self).units_seq();
            assert(self.classes_seq() == old(self).classes_seq());
            assert(self.symbols_seq() == old(self).symbols_seq());
            assert(forall|j: int| 0 <= j < o.len() ==> #[trigger] t[j] == o[j]);
            assert(t[o.len() as int].base_class == base_class);
        }
        id
    }

    /// How many unit classes are registered.
    pub fn unit_class_count(&self) -> (r: usize)
        ensures
            r == self.classes_seq().len(),
    {
        self.unit_classes.len()
    }

    /// How many units are registered.
    pub fn unit_count(&self) -> (r: usize)
        ensures
            r == self.units_seq().len(),
    {
        self.units.len()
    }

    /// The unit class an identity refers to.
    pub fn borrow_unit_class(&self, id: u64) -> (r: &UnitClass)
        requires
            id < self.classes_seq().len(),
        ensures
            *r == self.classes_seq()[id as int],
    {
        self.unit_classes.borrow(id)
    }

    /// The unit an identity refers to.
    pub fn borrow_unit(&self, id: u64) -> (r: &Unit)
        requires
            id < self.units_seq().len(),
        ensures
            *r == self.units_seq()[id as int],
    {
        self.units.borrow(id)
    }

    /// The base dimension of a compound unit: each component's unit
    /// contributes its own dimension, raised to the component's power, and
    /// the contributions multiply in the group of dimensions.
    pub fn base_unit_of(&self, unit: &CompositeUnit) -> (r: CompositeUnitClass)
        requires
            self.wf(),
            unit.wf(),
            self.valid_unit(*unit),
            forall|c: u64|
                #[trigger] abs_base_exp(self.units_seq(), unit.components.pairs_seq(), c)
                    <= i64::MAX,
        ensures
            r.wf(),
            self.valid_class(r),
            forall|c: u64|
                #[trigger] exp_of(r@, c) == base_exp(
                    self.units_seq(),
                    unit.components.pairs_seq(),
                    c,
                ),
            r@ == base_map(self.units_seq(), unit.components.pairs_seq()),
    {
        let ghost us = self.units_seq();
        let ghost sp = unit.components.pairs_seq();
        let mut acc = ExponentMap::unitless();
        let n = unit.components.len();
        let mut i: usize = 0;
        proof {
            assert(sp.skip(0) =~= sp);
        }
        while i < n
            invariant
                i <= n,
                n == sp.len(),
                us == self.units_seq(),
                sp == unit.components.pairs_seq(),
                self.wf(),
                unit.wf(),
                self.valid_unit(*unit),
                forall|c: u64| #[trigger] abs_base_exp(us, sp, c) <= i64::MAX,
                acc.wf(),
                forall|c: u64|
                    #[trigger] exp_of(acc@, c) == base_exp(us, sp, c) - base_exp(
                        us,
                        sp.skip(i as int),
                        c,
                    ),
                forall|c: u64|
                    iabs(#[trigger] exp_of(acc@, c)) <= abs_base_exp(us, sp, c) - abs_base_exp(
                        us,
                        sp.skip(i as int),
                        c,
                    ),
            decreases n - i,
        {
            let (j, p) = unit.components.pair_at(i);
            proof {
                assert(sp.skip(i as int)[0] == sp[i as int]);
                assert(sp.skip(i as int).skip(1) =~= sp.skip(i as int + 1));
            }
            let u = self.units.borrow(j);
            let ghost cls = u.base_class.components;
            proof {
                assert(*u == us[j as int]);
                assert forall|k: u64| i64::MIN <= p * #[trigger] exp_of(cls@, k) <= i64::MAX by {
                    assert(exp_of(cls@, k) == class_exp(us, j, k));
                    lemma_iabs_mul(p as int, class_exp(us, j, k));
                    lemma_abs_base_exp_nonneg(us, sp.skip(i as int + 1), k);
                    lemma_abs_base_exp_nonneg(us, sp.skip(i as int), k);
                    assert(abs_base_exp(us, sp.skip(i as int), k) == iabs(p as int) * iabs(
                        class_exp(us, j, k),
                    ) + abs_base_exp(us, sp.skip(i as int + 1), k));
                    assert(iabs(exp_of(acc@, k)) >= 0);
                    assert(abs_base_exp(us, sp.skip(i as int), k) <= abs_base_exp(us, sp, k));
                }
            }
            let scaled = u.base_class.components.scale(p);
            proof {
                assert forall|k: u64|
                    i64::MIN <= #[trigger] exp_of(acc@, k) + exp_of(scaled@, k) <= i64::MAX by {
                    assert(exp_of(scaled@, k) == p * exp_of(cls@, k));
                    assert(exp_of(cls@, k) == class_exp(us, j, k));
                    lemma_iabs_mul(p as int, class_exp(us, j, k));
                    lemma_abs_base_exp_nonneg(us, sp.skip(i as int + 1), k);
                    assert(abs_base_exp(us, sp.skip(i as int), k) == iabs(p as int) * iabs(
                        class_exp(us, j, k),
                    ) + abs_base_exp(us, sp.skip(i as int + 1), k));
                }
            }
            let next = acc.multiply(&scaled);
            proof {
                assert forall|c: u64|
                    #[trigger] exp_of(next@, c) == base_exp(us, sp, c) - base_exp(
                        us,
                        sp.skip(i as int + 1),
                        c,
                    ) by {
                    assert(exp_of(scaled@, c) == p * exp_of(cls@, c));
                    assert(exp_of(cls@, c) == class_exp(us, j, c));
                    assert(base_exp(us, sp.skip(i as int), c) == p * class_exp(us, j, c)
                        + base_exp(us, sp.skip(i as int + 1), c));
                }
                assert forall|c: u64|
                    iabs(#[trigger] exp_of(next@, c)) <= abs_base_exp(us, sp, c) - abs_base_exp(
                        us,
                        sp.skip(i as int + 1),
                        c,
                    ) by {
                    assert(exp_of(scaled@, c) == p * exp_of(cls@, c));
                    assert(exp_of(cls@, c) == class_exp(us, j, c));
                    lemma_iabs_mul(p as int, class_exp(us, j, c));
                    assert(abs_base_exp(us, sp.skip(i as int), c) == iabs(p as int) * iabs(
                        class_exp(us, j, c),
                    ) + abs_base_exp(us, sp.skip(i as int + 1), c));
                }
            }
            acc = next;
            i = i + 1;
        }
        proof {
            assert(sp.skip(n as int) =~= Seq::<(u64, i64)>::empty());
            assert forall|c: u64| #[trigger] exp_of(acc@, c) == base_exp(us, sp, c) by {
                assert(base_exp(us, sp.skip(n as int), c) == 0);
            }
        }
        let r = CompositeUnitClass { components: acc };
        proof {
            acc.lemma_view_exp();
            assert forall|x: int|
                0 <= x < r.components.pairs_seq().len() implies (
            #[trigger] r.components.pairs_seq()[x]).0 < self.classes_seq().len() by {
                let c = r.components.pairs_seq()[x].0;
                lemma_seq_exp_at(r.components.pairs_seq(), x);
                assert(exp_of(r@, c) != 0);
                lemma_base_exp_nonzero_key(us, sp, c);
                let w = choose|i: int|
                    0 <= i < sp.len() && class_exp(us, (#[trigger] sp[i]).0, c) != 0;
                let j2 = sp[w].0;
                assert(exp_of(us[j2 as int].base_class@, c) != 0);
                us[j2 as int].base_class.components.lemma_view_exp();
                lemma_key_present(us[j2 as int].base_class.components.pairs_seq(), c);
            }
            assert forall|c: u64| seq_exp(acc.pairs_seq(), c) == base_exp(us, sp, c) by {
                assert(exp_of(acc@, c) == seq_exp(acc.pairs_seq(), c));
                assert(exp_of(acc@, c) == base_exp(us, sp, c));
            }
            assert(r@ =~= base_map(us, sp));
        }
        r
    }

    /// Builds a scalar from a value already expressed in base-unit terms:
    /// derives the base dimension of the display unit, which makes the
    /// scalar invariant hold by construction.
    pub fn make_scalar_from_base(
        &self,
        base_value_bits: u64,
        unit: CompositeUnit,
        precision: u32,
    ) -> (r: Scalar)
        requires
            self.wf(),
            unit.wf(),
            self.valid_unit(unit),
            precision >= 1,
            forall|c: u64|
                #[trigger] abs_base_exp(self.units_seq(), unit.components.pairs_seq(), c)
                    <= i64::MAX,
        ensures
            self.scalar_wf(r),
            r.base_value_bits == base_value_bits,
            r.display_unit == unit,
            r.precision == precision,
            r.base_unit@ == base_map(self.units_seq(), unit.components.pairs_seq()),
    {
        let base_unit = self.base_unit_of(&unit);
        Scalar { base_value_bits, base_unit, display_unit: unit, precision }
    }

    /// Binds a name globally, overwriting any earlier binding of it.
    pub fn add_global_symbol(&mut self, symbol: Symbol, value: Value)
        requires
            old(self).wf(),
        ensures
            final(self).wf(),
            final(self).classes_seq() == old(self).classes_seq(),
            final(self).units_seq() == old(self).units_seq(),
            forall|n: Seq<char>|
                #[trigger] sym_lookup(final(self).symbols_seq(), n) == (if n == symbol.name@ {
                    Option::Some(value)
                } else {
                    sym_lookup(old(self).symbols_seq(), n)
                }),
    {
        let ghost ss = self.symbols_seq();
        let n = self.global_symbols.len();
        let mut i: usize = 0;
        let mut found: bool = false;
        let mut at: usize = 0;
        while i < n
            invariant
                i <= n,
                n == ss.len(),
                self.global_symbols@ == ss,
                self == old(self),
                !found ==> forall|x: int| 0 <= x < i ==> (#[trigger] ss[x]).0.name@ != symbol.name@,
                found ==> at < ss.len() && ss[at as int].0.name@ == symbol.name@,
            decreases n - i,
        {
            if !found {
                if self.global_symbols[i].0.name == symbol.name {
                    found = true;
                    at = i;
                }
            }
            i = i + 1;
        }
        if found {
            self.global_symbols[at] = (symbol, value);
            proof {
                assert(self.global_symbols@ == ss.update(at as int, (symbol, value)));
                lemma_sym_lookup_update(ss, at as int, (symbol, value));
                let t = self.symbols_seq();
                assert forall|x: int, y: int|
                    0 <= x < y < t.len() implies (#[trigger] t[x]).0.name@ != (
                #[trigger] t[y]).0.name@ by {
                    assert(ss[x].0.name@ != ss[y].0.name@);
                }
            }
        } else {
            self.global_symbols.push((symbol, value));
            proof {
                lemma_sym_lookup_push(ss, (symbol, value));
                let t = self.symbols_seq();
                assert forall|x: int, y: int|
                    0 <= x < y < t.len() implies (#[trigger] t[x]).0.name@ != (
                #[trigger] t[y]).0.name@ by {
                    if y < ss.len() {
                        assert(ss[x].0.name@ != ss[y].0.name@);
                    } else {
                        assert(t[y] == (symbol, value));
                        assert(ss[x].0.name@ != symbol.name@);
                    }
                }
            }
        }
        proof {
            assert forall|j: int| 0 <= j < self.units_seq().len() implies (
            #[trigger] self.units_seq()[j]).base_class.wf() by {
                assert(old(self).units_seq()[j].base_class.wf());
            }
            assert forall|j: int, i: int|
                0 <= j < self.units_seq().len() && 0 <= i < (
                #[trigger] self.units_seq()[j]).base_class.components.pairs_seq().len() implies (
            #[trigger] self.units_seq()[j].base_class.components.pairs_seq()[i]).0
                < self.classes_seq().len() by {
                assert(old(self).units_seq()[j].base_class.components.pairs_seq()[i].0 < old(
                    self,
                ).classes_seq().len());
            }
            assert forall|j: int| 0 <= j < self.units_seq().len() implies positive_ratio_bits(
                (#[trigger] self.units_seq()[j]).base_ratio_bits,
            ) by {
                assert(positive_ratio_bits(old(self).units_seq()[j].base_ratio_bits));
            }
        }
    }

    /// The value globally bound to a name, if any.
    pub fn find_global_symbol(&self, symbol: &Symbol) -> (r: Option<&Value>)
        ensures
            match r {
                Option::Some(v) => sym_lookup(self.symbols_seq(), symbol.name@) == Option::Some(
                    *v,
                ),
                Option::None => sym_lookup(self.symbols_seq(), symbol.name@) == Option::<
                    Value,
                >::None,
            },
    {
        let ghost ss = self.symbols_seq();
        let n = self.global_symbols.len();
        let mut i: usize = 0;
        proof {
            assert(ss.skip(0) =~= ss);
        }
        while i < n
            invariant
                i <= n,
                n == ss.len(),
                self.global_symbols@ == ss,
                sym_lookup(ss, symbol.name@) == sym_lookup(ss.skip(i as int), symbol.name@),
            decreases n - i,
        {
            proof {
                assert(ss.skip(i as int)[0] == ss[i as int]);
                assert(ss.skip(i as int).skip(1) =~= ss.skip(i as int + 1));
            }
            if self.global_symbols[i].0.name == symbol.name {
                return Option::Some(&self.global_symbols[i].1);
            }
            i = i + 1;
        }
        proof {
            assert(ss.skip(n as int) =~= Seq::<(Symbol, Value)>::empty());
        }
        Option::None
    }

    /// A read-only view of every global binding, for iteration.
    pub fn borrow_global_symbols(&self) -> (r: &Vec<(Symbol, Value)>)
        ensures
            r@ == self.symbols_seq(),
    {
        &self.global_symbols
    }
}

/// Overwriting the one entry that carries a name rebinds that name and no
/// other.
proof fn lemma_sym_lookup_update(s: Seq<(Symbol, Value)>, i: int, p: (Symbol, Value))
    requires
        0 <= i < s.len(),
        s[i].0.name@ == p.0.name@,
        forall|x: int, y: int|
            0 <= x < y < s.len() ==> (#[trigger] s[x]).0.name@ != (#[trigger] s[y]).0.name@,
    ensures
        forall|n: Seq<char>|
            #[trigger] sym_lookup(s.update(i, p), n) == (if n == p.0.name@ {
                Option::Some(p.1)
            } else {
                sym_lookup(s, n)
            }),
    decreases s.len(),
{
    let t = s.update(i, p);
    if i == 0 {
        assert(t[0] == p);
        assert(t.skip(1) =~= s.skip(1));
        assert forall|n: Seq<char>|
            #[trigger] sym_lookup(t, n) == (if n == p.0.name@ {
                Option::Some(p.1)
            } else {
                sym_lookup(s, n)
            }) by {
            assert(sym_lookup(t, n) == (if t[0].0.name@ == n {
                Option::Some(t[0].1)
            } else {
                sym_lookup(t.skip(1), n)
            }));
            assert(sym_lookup(s, n) == (if s[0].0.name@ == n {
                Option::Some(s[0].1)
            } else {
                sym_lookup(s.skip(1), n)
            }));
        }
    } else {
        assert(t[0] == s[0]);
        assert(t.skip(1) =~= s.skip(1).update(i - 1, p));
        assert(s.skip(1)[i - 1] == s[i]);
        assert forall|x: int, y: int|
            0 <= x < y < s.skip(1).len() implies (#[trigger] s.skip(1)[x]).0.name@ != (
        #[trigger] s.skip(1)[y]).0.name@ by {
            assert(s.skip(1)[x] == s[x + 1]);
            assert(s.skip(1)[y] == s[y + 1]);
        }
        lemma_sym_lookup_update(s.skip(1), i - 1, p);
        assert(s[0].0.name@ != p.0.name@);
        assert forall|n: Seq<char>|
            #[trigger] sym_lookup(t, n) == (if n == p.0.name@ {
                Option::Some(p.1)
            } else {
                sym_lookup(s, n)
            }) by {
            assert(sym_lookup(t, n) == (if t[0].0.name@ == n {
                Option::Some(t[0].1)
            } else {
                sym_lookup(t.skip(1), n)
            }));
            assert(sym_lookup(s, n) == (if s[0].0.name@ == n {
                Option::Some(s[0].1)
            } else {
                sym_lookup(s.skip(1), n)
            }));
            assert(sym_lookup(t.skip(1), n) == sym_lookup(s.skip(1).update(i - 1, p), n));
        }
    }
}

/// Appending an entry with a fresh name binds that name and no other.
proof fn lemma_sym_lookup_push(s: Seq<(Symbol, Value)>, p: (Symbol, Value))
    requires
        forall|x: int| 0 <= x < s.len() ==> (#[trigger] s[x]).0.name@ != p.0.name@,
    ensures
        forall|n: Seq<char>|
            #[trigger] sym_lookup(s.push(p), n) == (if n == p.0.name@ {
                Option::Some(p.1)
            } else {
                sym_lookup(s, n)
            }),
    decreases s.len(),
{
    let t = s.push(p);
    if s.len() == 0 {
        assert(t[0] == p);
        assert(t.skip(1) =~= Seq::<(Symbol, Value)>::empty());
        assert forall|n: Seq<char>|
            #[trigger] sym_lookup(t, n) == (if n == p.0.name@ {
                Option::Some(p.1)
            } else {
                sym_lookup(s, n)
            }) by {
            assert(sym_lookup(t, n) == (if t[0].0.name@ == n {
                Option::Some(t[0].1)
            } else {
                sym_lookup(t.skip(1), n)
            }));
            assert(sym_lookup(t.skip(1), n) == Option::<Value>::None);
            assert(sym_lookup(s, n) == Option::<Value>::None);
        }
    } else {
        assert(t[0] == s[0]);
        assert(t.skip(1) =~= s.skip(1).push(p));
        assert forall|x: int| 0 <= x < s.skip(1).len() implies (#[trigger] s.skip(1)[x]).0.name@
            != p.0.name@ by {
            assert(s.skip(1)[x] == s[x + 1]);
        }
        lemma_sym_lookup_push(s.skip(1), p);
        assert forall|n: Seq<char>|
            #[trigger] sym_lookup(t, n) == (if n == p.0.name@ {
                Option::Some(p.1)
            } else {
                sym_lookup(s, n)
            }) by {
            assert(sym_lookup(t, n) == (if t[0].0.name@ == n {
                Option::Some(t[0].1)
            } else {
                sym_lookup(t.skip(1), n)
            }));
            assert(sym_lookup(s, n) == (if s[0].0.name@ == n {
                Option::Some(s[0].1)
            } else {
                sym_lookup(s.skip(1), n)
            }));
            assert(sym_lookup(t.skip(1), n) == sym_lookup(s.skip(1).push(p), n));
            assert(s[0].0.name@ != p.0.name@);
        }
    }
}

/// The base exponents of a merge of two well-formed component lists are
/// the sums of the operands' base exponents.
proof fn lemma_base_exp_merge(units: Seq<Unit>, s: Seq<(u64, i64)>, t: Seq<(u64, i64)>, c: u64)
    requires
        wf_pairs(s),
        wf_pairs(t),
        forall|k: u64| i64::MIN <= #[trigger] seq_exp(s, k) + seq_exp(t, k) <= i64::MAX,
    ensures
        base_exp(units, merge_rec(s, t), c) == base_exp(units, s, c) + base_exp(units, t, c),
    decreases s.len() + t.len(),
{
    let m = merge_rec(s, t);
    if s.len() == 0 || t.len() == 0 {
    } else {
        assert(wf_pairs(s.skip(1)));
        assert(wf_pairs(t.skip(1)));
        let k0s = s[0].0;
        let k0t = t[0].0;
        lemma_seq_exp_at(s, 0);
        lemma_seq_exp_at(t, 0);
        assert forall|x: int| 0 <= x < s.skip(1).len() implies (#[trigger] s.skip(1)[x]).0
            != k0s by {
            assert(s.skip(1)[x] == s[x + 1]);
        }
        crate::algebra::lemma_seq_exp_absent(s.skip(1), k0s);
        assert forall|x: int| 0 <= x < t.skip(1).len() implies (#[trigger] t.skip(1)[x]).0
            != k0t by {
            assert(t.skip(1)[x] == t[x + 1]);
        }
        crate::algebra::lemma_seq_exp_absent(t.skip(1), k0t);
        if k0s < k0t {
            assert forall|k: u64|
                i64::MIN <= #[trigger] seq_exp(s.skip(1), k) + seq_exp(t, k) <= i64::MAX by {
                if k == k0s {
                    lemma_seq_exp_bounds(t, k);
                } else {
                    assert(seq_exp(s, k) == seq_exp(s.skip(1), k));
                }
            }
            lemma_base_exp_merge(units, s.skip(1), t, c);
            let m1 = merge_rec(s.skip(1), t);
            assert(m[0] == s[0]);
            assert(m.skip(1) =~= m1);
            assert(base_exp(units, m, c) == s[0].1 * class_exp(units, s[0].0, c) + base_exp(
                units,
                m1,
                c,
            ));
        } else if k0t < k0s {
            assert forall|k: u64|
                i64::MIN <= #[trigger] seq_exp(s, k) + seq_exp(t.skip(1), k) <= i64::MAX by {
                if k == k0t {
                    lemma_seq_exp_bounds(s, k);
                } else {
                    assert(seq_exp(t, k) == seq_exp(t.skip(1), k));
                }
            }
            lemma_base_exp_merge(units, s, t.skip(1), c);
            let m1 = merge_rec(s, t.skip(1));
            assert(m[0] == t[0]);
            assert(m.skip(1) =~= m1);
            assert(base_exp(units, m, c) == t[0].1 * class_exp(units, t[0].0, c) + base_exp(
                units,
                m1,
                c,
            ));
        } else {
            assert forall|k: u64|
                i64::MIN <= #[trigger] seq_exp(s.skip(1), k) + seq_exp(t.skip(1), k)
                    <= i64::MAX by {
                if k != k0s {
                    assert(seq_exp(s, k) == seq_exp(s.skip(1), k));
                    assert(seq_exp(t, k) == seq_exp(t.skip(1), k));
                }
            }
            lemma_base_exp_merge(units, s.skip(1), t.skip(1), c);
            let m1 = merge_rec(s.skip(1), t.skip(1));
            let e1 = s[0].1 as int;
            let e2 = t[0].1 as int;
            let x = class_exp(units, k0s, c);
            assert((e1 + e2) * x == e1 * x + e2 * x) by (nonlinear_arith);
            if e1 + e2 == 0 {
                assert(m == m1);
            } else {
                let h = (s[0].0, (s[0].1 + t[0].1) as i64);
                assert(m[0] == h);
                assert(m.skip(1) =~= m1);
                assert(h.1 as int == e1 + e2);
                assert(base_exp(units, m, c) == (e1 + e2) * x + base_exp(units, m1, c));
            }
        }
    }
}

/// Negating every component's power negates every base exponent.
proof fn lemma_base_exp_elementwise_neg(
    units: Seq<Unit>,
    s: Seq<(u64, i64)>,
    t: Seq<(u64, i64)>,
    c: u64,
)
    requires
        s.len() == t.len(),
        forall|x: int| 0 <= x < s.len() ==> #[trigger] t[x] == (s[x].0, (-s[x].1) as i64),
        forall|x: int| 0 <= x < s.len() ==> (#[trigger] s[x]).1 > i64::MIN,
    ensures
        base_exp(units, t, c) == -base_exp(units, s, c),
    decreases s.len(),
{
    if s.len() > 0 {
        assert forall|x: int| 0 <= x < s.skip(1).len() implies #[trigger] t.skip(1)[x] == (
            s.skip(1)[x].0,
            (-s.skip(1)[x].1) as i64,
        ) && s.skip(1)[x].1 > i64::MIN by {
            assert(s.skip(1)[x] == s[x + 1]);
            assert(t.skip(1)[x] == t[x + 1]);
        }
        lemma_base_exp_elementwise_neg(units, s.skip(1), t.skip(1), c);
        assert(t[0] == (s[0].0, (-s[0].1) as i64));
        let e = s[0].1 as int;
        let x = class_exp(units, s[0].0, c);
        assert((-e) * x == -(e * x)) by (nonlinear_arith);
        assert(base_exp(units, t, c) == (-e) * x + base_exp(units, t.skip(1), c));
        assert(base_exp(units, s, c) == e * x + base_exp(units, s.skip(1), c));
    }
}

/// Dimensional consistency: the base dimension of a product of compound
/// units is the product of the factors' base dimensions.
pub proof fn lemma_base_unit_of_multiply(
    env: Environment,
    u1: CompositeUnit,
    u2: CompositeUnit,
    u12: CompositeUnit,
)
    requires
        u1.wf(),
        u2.wf(),
        u12.wf(),
        u12@ == mul_map(u1@, u2@),
    ensures
        base_map(env.units_seq(), u12.components.pairs_seq()) == mul_map(
            base_map(env.units_seq(), u1.components.pairs_seq()),
            base_map(env.units_seq(), u2.components.pairs_seq()),
        ),
{
    let us = env.units_seq();
    let s1 = u1.components.pairs_seq();
    let s2 = u2.components.pairs_seq();
    let s12 = u12.components.pairs_seq();
    u1.components.lemma_view_exp();
    u2.components.lemma_view_exp();
    u12.components.lemma_view_exp();
    assert forall|k: u64| i64::MIN <= #[trigger] seq_exp(s1, k) + seq_exp(s2, k) <= i64::MAX by {
        lemma_seq_exp_bounds(s12, k);
        lemma_exp_of_mul(u1@, u2@, k);
        assert(exp_of(u12@, k) == seq_exp(s12, k));
        assert(exp_of(u1@, k) == seq_exp(s1, k));
        assert(exp_of(u2@, k) == seq_exp(s2, k));
    }
    lemma_merge_rec(s1, s2);
    let m = merge_rec(s1, s2);
    assert forall|k: u64| seq_exp(s12, k) == seq_exp(m, k) by {
        lemma_exp_of_mul(u1@, u2@, k);
        assert(exp_of(u12@, k) == seq_exp(s12, k));
        assert(exp_of(u1@, k) == seq_exp(s1, k));
        assert(exp_of(u2@, k) == seq_exp(s2, k));
    }
    lemma_canonical(s12, m);
    assert forall|c: u64|
        #[trigger] base_exp(us, s12, c) == base_exp(us, s1, c) + base_exp(us, s2, c) by {
        lemma_base_exp_merge(us, s1, s2, c);
    }
    let bm1 = base_map(us, s1);
    let bm2 = base_map(us, s2);
    assert forall|c: u64| #[trigger] exp_of(base_map(us, s12), c) == exp_of(
        mul_map(bm1, bm2),
        c,
    ) by {
        lemma_exp_of_mul(bm1, bm2, c);
    }
    assert(base_map(us, s12) =~= mul_map(bm1, bm2));
}

/// Dimensional consistency: the base dimension of the inverse of a
/// compound unit is the inverse of its base dimension.
pub proof fn lemma_base_unit_of_inverse(env: Environment, u: CompositeUnit, uinv: CompositeUnit)
    requires
        u.wf(),
        uinv.wf(),
        uinv@ == div_map(Map::<u64, int>::empty(), u@),
    ensures
        base_map(env.units_seq(), uinv.components.pairs_seq()) == div_map(
            Map::<u64, int>::empty(),
            base_map(env.units_seq(), u.components.pairs_seq()),
        ),
{
    let us = env.units_seq();
    let s = u.components.pairs_seq();
    let t0 = uinv.components.pairs_seq();
    u.components.lemma_view_exp();
    uinv.components.lemma_view_exp();
    assert forall|k: u64| #[trigger] seq_exp(t0, k) == -seq_exp(s, k) by {
        lemma_exp_of_div(Map::<u64, int>::empty(), u@, k);
        assert(exp_of(Map::<u64, int>::empty(), k) == 0);
        assert(exp_of(uinv@, k) == seq_exp(t0, k));
        assert(exp_of(u@, k) == seq_exp(s, k));
    }
    assert forall|x: int| 0 <= x < s.len() implies (#[trigger] s[x]).1 > i64::MIN by {
        lemma_seq_exp_at(s, x);
        lemma_seq_exp_bounds(t0, s[x].0);
    }
    let neg = s.map_values(|p: (u64, i64)| (p.0, (-p.1) as i64));
    assert forall|x: int| 0 <= x < s.len() implies #[trigger] neg[x] == (
        s[x].0,
        (-s[x].1) as i64,
    ) by {
    }
    assert forall|x: int, y: int| 0 <= x < y < neg.len() implies (#[trigger] neg[x]).0 < (
    #[trigger] neg[y]).0 by {
        assert(neg[x].0 == s[x].0 && neg[y].0 == s[y].0);
    }
    assert forall|x: int| 0 <= x < neg.len() implies (#[trigger] neg[x]).1 != 0 by {
        assert(neg[x] == (s[x].0, (-s[x].1) as i64));
    }
    assert(wf_pairs(neg));
    lemma_seq_exp_elementwise_neg(s, neg);
    assert forall|k: u64| seq_exp(t0, k) == seq_exp(neg, k) by {}
    lemma_canonical(t0, neg);
    assert forall|c: u64| #[trigger] base_exp(us, t0, c) == -base_exp(us, s, c) by {
        lemma_base_exp_elementwise_neg(us, s, neg, c);
    }
    let bm = base_map(us, s);
    assert forall|c: u64| #[trigger] exp_of(base_map(us, t0), c) == exp_of(
        div_map(Map::<u64, int>::empty(), bm),
        c,
    ) by {
        lemma_exp_of_div(Map::<u64, int>::empty(), bm, c);
        assert(exp_of(Map::<u64, int>::empty(), c) == 0);
    }
    assert(base_map(us, t0) =~= div_map(Map::<u64, int>::empty(), bm));
}

} // verus!
