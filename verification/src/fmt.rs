//! Rendering units, scalars and formula trees as strings.
//!
//! A compound unit renders as `"<numerator terms> / <denominator terms>"`:
//! every positive-power component contributes `name^power` to the
//! numerator, every negative-power component contributes `name^|power|` to
//! the denominator.  A scalar renders as its value in display-unit terms,
//! the display unit, and parenthesized base-unit forms; the numeric texts
//! themselves are rendered by the caller (they take floating-point
//! arithmetic) and passed in.  A formula tree renders as nested,
//! comma-separated argument lists indented four spaces per level.

use crate::algebra::iabs;
use crate::env::Environment;
use crate::formula::{Formula, Symbol, Value};
use crate::unit::{CompositeUnit, CompositeUnitClass, Unit, UnitClass};
use vstd::prelude::*;

verus! {

/// The character of one decimal digit.
pub open spec fn digit_char(d: int) -> char {
    if d == 0 {
        '0'
    } else if d == 1 {
        '1'
    } else if d == 2 {
        '2'
    } else if d == 3 {
        '3'
    } else if d == 4 {
        '4'
    } else if d == 5 {
        '5'
    } else if d == 6 {
        '6'
    } else if d == 7 {
        '7'
    } else if d == 8 {
        '8'
    } else {
        '9'
    }
}

/// The decimal rendering of a natural number, most significant digit
/// first, without leading zeroes.
pub open spec fn dec_str(n: nat) -> Seq<char>
    decreases n,
{
    if n < 10 {
        seq![digit_char(n as int)]
    } else {
        dec_str(n / 10) + seq![digit_char((n % 10) as int)]
    }
}

/// The names of the registered unit classes, by identity.
pub open spec fn class_names(classes: Seq<UnitClass>) -> Seq<Seq<char>> {
    classes.map_values(|c: UnitClass| c.name@)
}

/// The names of the registered units, by identity.
pub open spec fn unit_names(units: Seq<Unit>) -> Seq<Seq<char>> {
    units.map_values(|u: Unit| u.name@)
}

/// One rendered component: its name, a caret, and the magnitude of its
/// power.
pub open spec fn term_str(names: Seq<Seq<char>>, k: u64, e: i64) -> Seq<char> {
    names[k as int] + seq!['^'] + dec_str(iabs(e as int) as nat)
}

/// The concatenation of the rendered components on one side of the
/// fraction: the positive powers when `positive`, else the negative ones.
pub open spec fn terms_str(names: Seq<Seq<char>>, s: Seq<(u64, i64)>, positive: bool) -> Seq<char>
    decreases s.len(),
{
    if s.len() == 0 {
        Seq::<char>::empty()
    } else {
        (if (s[0].1 > 0) == positive {
            term_str(names, s[0].0, s[0].1)
        } else {
            Seq::<char>::empty()
        }) + terms_str(names, s.skip(1), positive)
    }
}

/// The full rendering of a compound: numerator terms, a slash, denominator
/// terms.
pub open spec fn composite_str(names: Seq<Seq<char>>, s: Seq<(u64, i64)>) -> Seq<char> {
    terms_str(names, s, true) + " / "@ + terms_str(names, s, false)
}

/// Appends one decimal digit character.
fn push_digit(s: &mut String, d: u64)
    requires
        d < 10,
    ensures
        final(s)@ == old(s)@ + seq![digit_char(d as int)],
{
    if d == 0 {
        proof {
            reveal_strlit("0");
            assert("0"@ =~= seq![digit_char(0)]);
        }
        s.append("0");
    } else if d == 1 {
        proof {
            reveal_strlit("1");
            assert("1"@ =~= seq![digit_char(1)]);
        }
        s.append("1");
    } else if d == 2 {
        proof {
            reveal_strlit("2");
            assert("2"@ =~= seq![digit_char(2)]);
        }
        s.append("2");
    } else if d == 3 {
        proof {
            reveal_strlit("3");
            assert("3"@ =~= seq![digit_char(3)]);
        }
        s.append("3");
    } else if d == 4 {
        proof {
            reveal_strlit("4");
            assert("4"@ =~= seq![digit_char(4)]);
        }
        s.append("4");
    } else if d == 5 {
        proof {
            reveal_strlit("5");
            assert("5"@ =~= seq![digit_char(5)]);
        }
        s.append("5");
    } else if d == 6 {
        proof {
            reveal_strlit("6");
            assert("6"@ =~= seq![digit_char(6)]);
        }
        s.append("6");
    } else if d == 7 {
        proof {
            reveal_strlit("7");
            assert("7"@ =~= seq![digit_char(7)]);
        }
        s.append("7");
    } else if d == 8 {
        proof {
            reveal_strlit("8");
            assert("8"@ =~= seq![digit_char(8)]);
        }
        s.append("8");
    } else {
        proof {
            reveal_strlit("9");
            assert("9"@ =~= seq![digit_char(9)]);
        }
        s.append("9");
    }
}

/// Renders a natural number in decimal.
pub fn decimal_string(n: u64) -> (r: String)
    ensures
        r@ == dec_str(n as nat),
    decreases n,
{
    if n < 10 {
        let mut s = String::new();
        push_digit(&mut s, n);
        proof {
            assert(s@ =~= dec_str(n as nat));
        }
        s
    } else {
        let mut s = decimal_string(n / 10);
        push_digit(&mut s, n % 10);
        proof {
            assert(s@ =~= dec_str(n as nat));
        }
        s
    }
}

/// The magnitude of a signed power, as the unsigned integer it renders as.
fn magnitude_u64(p: i64) -> (r: u64)
    ensures
        r as int == iabs(p as int),
{
    if p == i64::MIN {
        9223372036854775808u64
    } else if p < 0 {
        (-p) as u64
    } else {
        p as u64
    }
}

impl Environment {
    /// Renders a compound dimension over the registered class names.
    pub fn format_base_unit(&self, base_unit: &CompositeUnitClass) -> (r: String)
        requires
            base_unit.wf(),
            self.valid_class(*base_unit),
        ensures
            r@ == composite_str(
                class_names(self.classes_seq()),
                base_unit.components.pairs_seq(),
            ),
    {
        let ghost names = class_names(self.classes_seq());
        let ghost sp = base_unit.components.pairs_seq();
        let mut numerator = String::new();
        let mut denominator = String::new();
        let n = base_unit.components.len();
        let mut i: usize = 0;
        proof {
            assert(sp.skip(0) =~= sp);
        }
        while i < n
            invariant
                i <= n,
                n == sp.len(),
                sp == base_unit.components.pairs_seq(),
                base_unit.wf(),
                self.valid_class(*base_unit),
                names == class_names(self.classes_seq()),
                terms_str(names, sp, true) == numerator@ + terms_str(names, sp.skip(i as int), true),
                terms_str(names, sp, false) == denominator@ + terms_str(
                    names,
                    sp.skip(i as int),
                    false,
                ),
            decreases n - i,
        {
            let (k, p) = base_unit.components.pair_at(i);
            proof {
                assert(sp.skip(i as int)[0] == sp[i as int]);
                assert(sp.skip(i as int).skip(1) =~= sp.skip(i as int + 1));
                reveal_strlit("^");
                assert("^"@ =~= seq!['^']);
            }
            let mag = magnitude_u64(p);
            let digits = decimal_string(mag);
            let ghost num0 = numerator@;
            let ghost den0 = denominator@;
            let ghost head = term_str(names, k, p);
            proof {
                assert(names[k as int] == self.classes_seq()[k as int].name@);
            }
            if p > 0 {
                let name = &self.borrow_unit_class(k).name;
                numerator.append(name.as_str());
                numerator.append("^");
                numerator.append(digits.as_str());
                proof {
                    assert(numerator@ =~= num0 + head);
                    assert(terms_str(names, sp.skip(i as int), true) == head + terms_str(
                        names,
                        sp.skip(i as int + 1),
                        true,
                    ));
                    assert(num0 + (head + terms_str(names, sp.skip(i as int + 1), true)) =~= (num0
                        + head) + terms_str(names, sp.skip(i as int + 1), true));
                    assert(terms_str(names, sp.skip(i as int), false) =~= Seq::<char>::empty()
                        + terms_str(names, sp.skip(i as int + 1), false));
                    assert(Seq::<char>::empty() + terms_str(names, sp.skip(i as int + 1), false)
                        =~= terms_str(names, sp.skip(i as int + 1), false));
                }
            } else {
                let name = &self.borrow_unit_class(k).name;
                denominator.append(name.as_str());
                denominator.append("^");
                denominator.append(digits.as_str());
                proof {
                    assert(denominator@ =~= den0 + head);
                    assert(terms_str(names, sp.skip(i as int), false) == head + terms_str(
                        names,
                        sp.skip(i as int + 1),
                        false,
                    ));
                    assert(den0 + (head + terms_str(names, sp.skip(i as int + 1), false)) =~= (den0
                        + head) + terms_str(names, sp.skip(i as int + 1), false));
                    assert(terms_str(names, sp.skip(i as int), true) =~= Seq::<char>::empty()
                        + terms_str(names, sp.skip(i as int + 1), true));
                    assert(Seq::<char>::empty() + terms_str(names, sp.skip(i as int + 1), true)
                        =~= terms_str(names, sp.skip(i as int + 1), true));
                }
            }
            i = i + 1;
        }
        proof {
            assert(sp.skip(n as int) =~= Seq::<(u64, i64)>::empty());
            assert(numerator@ + Seq::<char>::empty() =~= numerator@);
            assert(denominator@ + Seq::<char>::empty() =~= denominator@);
        }
        let mut result = numerator;
        result.append(" / ");
        result.append(denominator.as_str());
        proof {
            assert(result@ =~= composite_str(names, sp));
        }
        result
    }

    /// Renders a compound unit over the registered unit names.
    pub fn format_unit(&self, unit: &CompositeUnit) -> (r: String)
        requires
            unit.wf(),
            self.valid_unit(*unit),
        ensures
            r@ == composite_str(unit_names(self.units_seq()), unit.components.pairs_seq()),
    {
        let ghost names = unit_names(self.units_seq());
        let ghost sp = unit.components.pairs_seq();
        let mut numerator = String::new();
        let mut denominator = String::new();
        let n = unit.components.len();
        let mut i: usize = 0;
        proof {
            assert(sp.skip(0) =~= sp);
        }
        while i < n
            invariant
                i <= n,
                n == sp.len(),
                sp == unit.components.pairs_seq(),
                unit.wf(),
                self.valid_unit(*unit),
                names == unit_names(self.units_seq()),
                terms_str(names, sp, true) == numerator@ + terms_str(names, sp.skip(i as int), true),
                terms_str(names, sp, false) == denominator@ + terms_str(
                    names,
                    sp.skip(i as int),
                    false,
                ),
            decreases n - i,
        {
            let (k, p) = unit.components.pair_at(i);
            proof {
                assert(sp.skip(i as int)[0] == sp[i as int]);
                assert(sp.skip(i as int).skip(1) =~= sp.skip(i as int + 1));
                reveal_strlit("^");
                assert("^"@ =~= seq!['^']);
            }
            let mag = magnitude_u64(p);
            let digits = decimal_string(mag);
            let ghost num0 = numerator@;
            let ghost den0 = denominator@;
            let ghost head = term_str(names, k, p);
            proof {
                assert(names[k as int] == self.units_seq()[k as int].name@);
            }
            if p > 0 {
                let name = &self.borrow_unit(k).name;
                numerator.append(name.as_str());
                numerator.append("^");
                numerator.append(digits.as_str());
                proof {
                    assert(numerator@ =~= num0 + head);
                    assert(terms_str(names, sp.skip(i as int), true) == head + terms_str(
                        names,
                        sp.skip(i as int + 1),
                        true,
                    ));
                    assert(num0 + (head + terms_str(names, sp.skip(i as int + 1), true)) =~= (num0
                        + head) + terms_str(names, sp.skip(i as int + 1), true));
                    assert(terms_str(names, sp.skip(i as int), false) =~= Seq::<char>::empty()
                        + terms_str(names, sp.skip(i as int + 1), false));
                    assert(Seq::<char>::empty() + terms_str(names, sp.skip(i as int + 1), false)
                        =~= terms_str(names, sp.skip(i as int + 1), false));
                }
            } else {
                let name = &self.borrow_unit(k).name;
                denominator.append(name.as_str());
                denominator.append("^");
                denominator.append(digits.as_str());
                proof {
                    assert(denominator@ =~= den0 + head);
                    assert(terms_str(names, sp.skip(i as int), false) == head + terms_str(
                        names,
                        sp.skip(i as int + 1),
                        false,
                    ));
                    assert(den0 + (head + terms_str(names, sp.skip(i as int + 1), false)) =~= (den0
                        + head) + terms_str(names, sp.skip(i as int + 1), false));
                    assert(terms_str(names, sp.skip(i as int), true) =~= Seq::<char>::empty()
                        + terms_str(names, sp.skip(i as int + 1), true));
                    assert(Seq::<char>::empty() + terms_str(names, sp.skip(i as int + 1), true)
                        =~= terms_str(names, sp.skip(i as int + 1), true));
                }
            }
            i = i + 1;
        }
        proof {
            assert(sp.skip(n as int) =~= Seq::<(u64, i64)>::empty());
            assert(numerator@ + Seq::<char>::empty() =~= numerator@);
            assert(denominator@ + Seq::<char>::empty() =~= denominator@);
        }
        let mut result = numerator;
        result.append(" / ");
        result.append(denominator.as_str());
        proof {
            assert(result@ =~= composite_str(names, sp));
        }
        result
    }

    /// Renders a scalar as its value in display-unit terms, its display
    /// unit, and the parenthesized base-unit forms.  The two numeric
    /// texts, already rendered in scientific notation with `precision - 1`
    /// fractional digits, are supplied by the caller: producing them takes
    /// floating-point division, which this core does not hold.
    pub fn format_scalar_detailed(
        &self,
        scalar: &crate::formula::Scalar,
        value_in_display: &str,
        value_in_base: &str,
    ) -> (r: String)
        requires
            self.scalar_wf(*scalar),
        ensures
            r@ == value_in_display@ + seq![' '] + composite_str(
                unit_names(self.units_seq()),
                scalar.display_unit.components.pairs_seq(),
            ) + seq![' ', '('] + value_in_base@ + seq![' '] + composite_str(
                class_names(self.classes_seq()),
                scalar.base_unit.components.pairs_seq(),
            ) + seq![')'],
    {
        proof {
            reveal_strlit(" ");
            reveal_strlit(" (");
            reveal_strlit(")");
            assert(" "@ =~= seq![' ']);
            assert(" ("@ =~= seq![' ', '(']);
            assert(")"@ =~= seq![')']);
        }
        let unit_str = self.format_unit(&scalar.display_unit);
        let base_str = self.format_base_unit(&scalar.base_unit);
        let mut result = String::new();
        result.append(value_in_display);
        result.append(" ");
        result.append(unit_str.as_str());
        result.append(" (");
        result.append(value_in_base);
        result.append(" ");
        result.append(base_str.as_str());
        result.append(")");
        proof {
            assert(result@ =~= value_in_display@ + seq![' '] + composite_str(
                unit_names(self.units_seq()),
                scalar.display_unit.components.pairs_seq(),
            ) + seq![' ', '('] + value_in_base@ + seq![' '] + composite_str(
                class_names(self.classes_seq()),
                scalar.base_unit.components.pairs_seq(),
            ) + seq![')']);
        }
        result
    }

    /// Renders a value.  Only scalar values exist to be rendered: the
    /// vector variant is deliberately unimplemented, so callers keep it
    /// out.
    pub fn format_value_detailed(
        &self,
        value: &Value,
        value_in_display: &str,
        value_in_base: &str,
    ) -> (r: String)
        requires
            value matches Value::Scalar(s) && self.scalar_wf(*s),
        ensures
            value matches Value::Scalar(s) ==> r@ == value_in_display@ + seq![' ']
                + composite_str(
                unit_names(self.units_seq()),
                s.display_unit.components.pairs_seq(),
            ) + seq![' ', '('] + value_in_base@ + seq![' '] + composite_str(
                class_names(self.classes_seq()),
                s.base_unit.components.pairs_seq(),
            ) + seq![')'],
    {
        match value {
            Value::Scalar(scalar) => self.format_scalar_detailed(
                scalar,
                value_in_display,
                value_in_base,
            ),
            Value::Vector => {
                proof {
                    assert(false);
                }
                String::new()
            },
        }
    }
}

/// A run of spaces.
pub open spec fn spaces(n: nat) -> Seq<char> {
    Seq::new(n, |i: int| ' ')
}

/// The number of function-application nodes of a formula; the indentation
/// a render reaches grows by four per nesting level, so this bounds it.
pub open spec fn formula_size(f: Formula<String>) -> nat
    decreases f,
{
    match f {
        Formula::Value(_) => 0,
        Formula::Symbol(_) => 0,
        Formula::PlainFunction { fun: _, args } => 1 + args_size(args@),
    }
}

/// The summed size of an argument list.
pub open spec fn args_size(args: Seq<Formula<String>>) -> nat
    decreases args,
{
    if args.len() == 0 {
        0
    } else {
        formula_size(args[0]) + args_size(args.skip(1))
    }
}

/// Each argument is at most as large as the whole list.
pub proof fn lemma_args_size_bound(args: Seq<Formula<String>>, i: int)
    requires
        0 <= i < args.len(),
    ensures
        formula_size(args[i]) <= args_size(args),
    decreases i,
{
    if i > 0 {
        lemma_args_size_bound(args.skip(1), i - 1);
        assert(args.skip(1)[i - 1] == args[i]);
    }
}

/// The rendering of a formula at a nesting level: a value leaf is its
/// already-rendered text, a symbol leaf its name in a debug form, and a
/// function application its name, a bracketed newline, one indented line
/// per argument ending in a comma, and a closing bracket at the node's own
/// indentation.
pub open spec fn formula_str(f: Formula<String>, indent: nat) -> Seq<char>
    decreases f,
{
    match f {
        Formula::Value(text) => text@,
        Formula::Symbol(sym) => "Symbol(\""@ + sym.name@ + "\")"@,
        Formula::PlainFunction { fun, args } => fun@ + "[\n"@ + args_str(args@, indent) + spaces(
            indent,
        ) + "]"@,
    }
}

/// The rendering of an argument list: each argument indented four deeper,
/// followed by a comma and a newline.
pub open spec fn args_str(args: Seq<Formula<String>>, indent: nat) -> Seq<char>
    decreases args,
{
    if args.len() == 0 {
        Seq::<char>::empty()
    } else {
        spaces(indent + 4) + formula_str(args[0], (indent + 4) as nat) + ",\n"@ + args_str(
            args.skip(1),
            indent,
        )
    }
}

/// Appends a run of spaces.
fn append_spaces(s: &mut String, n: usize)
    ensures
        final(s)@ == old(s)@ + spaces(n as nat),
{
    proof {
        assert(old(s)@ + spaces(0) =~= old(s)@);
    }
    let mut i: usize = 0;
    while i < n
        invariant
            i <= n,
            s@ == old(s)@ + spaces(i as nat),
        decreases n - i,
    {
        proof {
            reveal_strlit(" ");
            assert(" "@ =~= seq![' ']);
            assert((old(s)@ + spaces(i as nat)) + seq![' '] =~= old(s)@ + spaces(i as nat + 1));
        }
        s.append(" ");
        i = i + 1;
    }
}

impl Environment {
    /// Renders a formula tree whose value leaves were already rendered to
    /// text (rendering a scalar's numbers takes floating-point arithmetic,
    /// which this core does not hold).
    pub fn format_formula_detailed(&self, formula: &Formula<String>) -> (r: String)
        requires
            4 * formula_size(*formula) <= usize::MAX,
        ensures
            r@ == formula_str(*formula, 0),
    {
        self.format_formula_detailed_impl(formula, 0)
    }

    fn format_formula_detailed_impl(&self, formula: &Formula<String>, indent: usize) -> (r: String)
        requires
            indent + 4 * formula_size(*formula) <= usize::MAX,
        ensures
            r@ == formula_str(*formula, indent as nat),
        decreases formula_size(*formula),
    {
        match formula {
            Formula::Value(text) => {
                text.clone()
            },
            Formula::Symbol(symbol) => {
                let mut r = String::new();
                r.append("Symbol(\"");
                r.append(symbol.name.as_str());
                r.append("\")");
                proof {
                    assert(r@ =~= formula_str(*formula, indent as nat));
                }
                r
            },
            Formula::PlainFunction { fun, args } => {
                let ghost gargs = args@;
                proof {
                    assert(formula_str(*formula, indent as nat) == fun@ + "[\n"@ + args_str(
                        gargs,
                        indent as nat,
                    ) + spaces(indent as nat) + "]"@);
                    assert(formula_size(*formula) == 1 + args_size(gargs));
                }
                let mut r = String::new();
                r.append(fun.as_str());
                r.append("[\n");
                let n = args.len();
                let mut i: usize = 0;
                proof {
                    assert(gargs.skip(0) =~= gargs);
                    assert((fun@ + "[\n"@) + args_str(gargs, indent as nat) =~= fun@ + "[\n"@
                        + args_str(gargs, indent as nat));
                }
                while i < n
                    invariant
                        i <= n,
                        n == gargs.len(),
                        args@ == gargs,
                        formula_size(*formula) == 1 + args_size(gargs),
                        formula_str(*formula, indent as nat) == fun@ + "[\n"@ + args_str(
                            gargs,
                            indent as nat,
                        ) + spaces(indent as nat) + "]"@,
                        indent + 4 * (1 + args_size(gargs)) <= usize::MAX,
                        fun@ + "[\n"@ + args_str(gargs, indent as nat) == r@ + args_str(
                            gargs.skip(i as int),
                            indent as nat,
                        ),
                    decreases n - i,
                {
                    proof {
                        assert(gargs.skip(i as int)[0] == gargs[i as int]);
                        assert(gargs.skip(i as int).skip(1) =~= gargs.skip(i as int + 1));
                        lemma_args_size_bound(gargs, i as int);
                    }
                    let rc = self.format_formula_detailed_impl(&args[i], indent + 4);
                    let ghost r0 = r@;
                    append_spaces(&mut r, indent + 4);
                    r.append(rc.as_str());
                    r.append(",\n");
                    proof {
                        assert(args_str(gargs.skip(i as int), indent as nat) == spaces(
                            indent as nat + 4,
                        ) + formula_str(gargs[i as int], indent as nat + 4) + ",\n"@ + args_str(
                            gargs.skip(i as int + 1),
                            indent as nat,
                        ));
                        assert(r@ =~= r0 + (spaces(indent as nat + 4) + formula_str(
                            gargs[i as int],
                            indent as nat + 4,
                        ) + ",\n"@));
                        assert(r0 + (spaces(indent as nat + 4) + formula_str(
                            gargs[i as int],
                            indent as nat + 4,
                        ) + ",\n"@) + args_str(gargs.skip(i as int + 1), indent as nat) =~= r0
                            + args_str(gargs.skip(i as int), indent as nat));
                    }
                    i = i + 1;
                }
                proof {
                    assert(gargs.skip(n as int) =~= Seq::<Formula<String>>::empty());
                    assert(args_str(gargs.skip(n as int), indent as nat) =~= Seq::<char>::empty());
                    assert(r@ + Seq::<char>::empty() =~= r@);
                }
                append_spaces(&mut r, indent);
                r.append("]");
                proof {
                    assert(r@ =~= formula_str(*formula, indent as nat));
                }
                r
            },
        }
    }
}

/// Formatting determinism: how a compound unit renders depends only on
/// its abstract exponent map, never on the order it was built in, since
/// equal maps have equal canonical component lists.
pub proof fn lemma_format_unit_deterministic(
    names: Seq<Seq<char>>,
    u1: CompositeUnit,
    u2: CompositeUnit,
)
    requires
        u1.wf(),
        u2.wf(),
        u1@ == u2@,
    ensures
        composite_str(names, u1.components.pairs_seq()) == composite_str(
            names,
            u2.components.pairs_seq(),
        ),
{
    u1.components.lemma_view_canonical(&u2.components);
}

/// Formatting determinism for compound dimensions, likewise.
pub proof fn lemma_format_base_unit_deterministic(
    names: Seq<Seq<char>>,
    u1: CompositeUnitClass,
    u2: CompositeUnitClass,
)
    requires
        u1.wf(),
        u2.wf(),
        u1@ == u2@,
    ensures
        composite_str(names, u1.components.pairs_seq()) == composite_str(
            names,
            u2.components.pairs_seq(),
        ),
{
    u1.components.lemma_view_canonical(&u2.components);
}

} // verus!
