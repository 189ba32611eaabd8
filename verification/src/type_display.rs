use vstd::prelude::*;

use crate::ar_type::{ty_head, ty_view, tys_view, ArType, TyView};
use crate::primitive::{lemma_names_distinct, spec_name, Primitive};
use crate::symbol_table::{Symbol, SymbolTable};

verus! {

/// The decimal digit for `d`.
pub open spec fn digit_char(d: nat) -> char {
    if d == 0 {
        '0'
    } else if d == 1 {
        '1'
    } else if d == 2 {
        '2'
    } else if d == 3 {
        '3'
    } else if d == 4 {
        '4'
    } else if d == 5 {
        '5'
    } else if d == 6 {
        '6'
    } else if d == 7 {
        '7'
    } else if d == 8 {
        '8'
    } else {
        '9'
    }
}

/// `n` written in decimal, without leading zeros.
pub open spec fn decimal(n: nat) -> Seq<char>
    decreases n,
{
    if n < 10 {
        seq![digit_char(n)]
    } else {
        decimal(n / 10).push(digit_char(n % 10))
    }
}

/// Appends `n` in decimal to `out`.
pub(crate) fn append_decimal(out: &mut String, n: u64)
    ensures
        final(out)@ == old(out)@ + decimal(n as nat),
    decreases n,
{
    if n >= 10 {
        append_decimal(out, n / 10);
    }
    let d: usize = (n % 10) as usize;
    let digits = "0123456789";
    proof {
        reveal_strlit("0123456789");
    }
    out.append(digits.substring_char(d, d + 1));
    assert(digits@.subrange(d as int, d + 1) =~= seq![digit_char((n % 10) as nat)]);
}

/// Whether every named type inside `t` refers to one of the first `n`
/// symbols.
pub open spec fn ty_ids_below(t: TyView, n: nat) -> bool
    decreases t,
{
    match t {
        TyView::Primitive(_) => true,
        TyView::Named(id, args) => id.0 < n && tys_ids_below(args, n),
        TyView::Func(params, ret) => tys_ids_below(params, n) && ty_ids_below(*ret, n),
        TyView::Nullable(inner) => ty_ids_below(*inner, n),
        TyView::Slice(inner) => ty_ids_below(*inner, n),
        TyView::Array(_, inner) => ty_ids_below(*inner, n),
        TyView::Ptr(inner) => ty_ids_below(*inner, n),
        TyView::Tuple(items) => tys_ids_below(items, n),
        TyView::Result(ok, err) => ty_ids_below(*ok, n) && ty_ids_below(*err, n),
        TyView::Option(inner) => ty_ids_below(*inner, n),
        _ => true,
    }
}

/// Whether every type of `ts` satisfies `ty_ids_below`.
pub open spec fn tys_ids_below(ts: Seq<TyView>, n: nat) -> bool
    decreases ts,
{
    if ts.len() == 0 {
        true
    } else {
        ty_ids_below(ts[0], n) && tys_ids_below(ts.drop_first(), n)
    }
}

/// The types of `ts`, each as `display_ty` shows it, separated by `", "`.
pub open spec fn display_list(ts: Seq<TyView>, syms: Seq<Symbol>) -> Seq<char>
    decreases ts,
{
    if ts.len() == 0 {
        Seq::empty()
    } else if ts.len() == 1 {
        display_ty(ts[0], syms)
    } else {
        display_ty(ts[0], syms) + ", "@ + display_list(ts.drop_first(), syms)
    }
}

/// How a type is shown in diagnostics, with named types under the names of
/// their symbols in `syms`.
pub open spec fn display_ty(t: TyView, syms: Seq<Symbol>) -> Seq<char>
    decreases t,
{
    match t {
        TyView::Primitive(p) => spec_name(p),
        TyView::Named(id, args) => if args.len() == 0 {
            syms[id.0 as int].name@
        } else {
            syms[id.0 as int].name@ + "<"@ + display_list(args, syms) + ">"@
        },
        TyView::Func(params, ret) => if *ret == TyView::Void {
            "func("@ + display_list(params, syms) + ")"@
        } else {
            "func("@ + display_list(params, syms) + ") "@ + display_ty(*ret, syms)
        },
        TyView::Nullable(inner) => display_ty(*inner, syms) + "?"@,
        TyView::Slice(inner) => "[]"@ + display_ty(*inner, syms),
        TyView::Array(size, inner) => "["@ + decimal(size as nat) + "]"@ + display_ty(*inner, syms),
        TyView::Ptr(inner) => "ptr["@ + display_ty(*inner, syms) + "]"@,
        TyView::Tuple(items) => "("@ + display_list(items, syms) + ")"@,
        TyView::Result(ok, err) => "Result<"@ + display_ty(*ok, syms) + ", "@ + display_ty(*err, syms)
            + ">"@,
        TyView::Option(inner) => "Option<"@ + display_ty(*inner, syms) + ">"@,
        TyView::ErrType => "Err"@,
        TyView::Void => "void"@,
        TyView::IntLiteral => "int"@,
        TyView::FloatLiteral => "float"@,
        TyView::Error => "<error>"@,
    }
}

/// The types of `ts`, each mangled and preceded by `_`.
pub open spec fn mangle_list(ts: Seq<TyView>, syms: Seq<Symbol>) -> Seq<char>
    decreases ts,
{
    if ts.len() == 0 {
        Seq::empty()
    } else {
        "_"@ + mangle_ty(ts[0], syms) + mangle_list(ts.drop_first(), syms)
    }
}

/// The linker-safe spelling of a type inside a mangled symbol name.
pub open spec fn mangle_ty(t: TyView, syms: Seq<Symbol>) -> Seq<char>
    decreases t,
{
    match t {
        TyView::Primitive(p) => spec_name(p),
        TyView::Named(id, args) => syms[id.0 as int].name@ + mangle_list(args, syms),
        TyView::Func(params, ret) => "fn"@ + mangle_list(params, syms) + "_R_"@ + mangle_ty(
            *ret,
            syms,
        ),
        TyView::Nullable(inner) => "opt_"@ + mangle_ty(*inner, syms),
        TyView::Slice(inner) => "slice_"@ + mangle_ty(*inner, syms),
        TyView::Array(size, inner) => "arr"@ + decimal(size as nat) + "_"@ + mangle_ty(*inner, syms),
        TyView::Ptr(inner) => "ptr_"@ + mangle_ty(*inner, syms),
        TyView::Tuple(items) => "tup"@ + mangle_list(items, syms),
        TyView::Result(ok, err) => "res_"@ + mangle_ty(*ok, syms) + "_"@ + mangle_ty(*err, syms),
        TyView::Option(inner) => "option_"@ + mangle_ty(*inner, syms),
        TyView::ErrType => "err"@,
        TyView::Void => "void"@,
        TyView::IntLiteral => "int"@,
        TyView::FloatLiteral => "float"@,
        TyView::Error => "error"@,
    }
}

impl ArType {
    /// The type as diagnostics show it, e.g. `func(int, str) bool`,
    /// `[4]float`, `Result<User, Err>`.
    pub fn display(&self, symbols: &SymbolTable) -> (r: String)
        requires
            ty_ids_below(self@, symbols.symbol_seq().len()),
        ensures
            r@ == display_ty(self@, symbols.symbol_seq()),
    {
        let mut out = String::new();
        self.write_display(symbols, &mut out);
        assert(out@ =~= Seq::<char>::empty() + display_ty(self@, symbols.symbol_seq()));
        out
    }

    fn write_display(&self, symbols: &SymbolTable, out: &mut String)
        requires
            ty_ids_below(self@, symbols.symbol_seq().len()),
        ensures
            final(out)@ == old(out)@ + display_ty(self@, symbols.symbol_seq()),
        decreases self,
    {
        let ghost syms = symbols.symbol_seq();
        let ghost start = out@;
        match self {
            ArType::Primitive(p) => {
                out.append(p.as_str());
            },
            ArType::Named(id, args) => {
                assert(tys_view(args@).len() == args@.len());
                out.append(symbols.get(*id).name.as_str());
                if args.len() > 0 {
                    out.append("<");
                    write_display_list(args, symbols, out);
                    out.append(">");
                }
                assert(out@ =~= start + display_ty(self@, syms));
            },
            ArType::Func(params, ret) => {
                let ghost pv = tys_view(params@);
                assert(self@ == TyView::Func(pv, Box::new(ty_view(**ret))));
                out.append("func(");
                write_display_list(params, symbols, out);
                match &**ret {
                    ArType::Void => {
                        out.append(")");
                        assert(ty_view(**ret) == TyView::Void);
                        assert(out@ =~= start + display_ty(self@, syms));
                    },
                    _ => {
                        assert(ty_view(**ret) != TyView::Void) by {
                            match **ret {
                                ArType::Void => {},
                                _ => {},
                            }
                        }
                        out.append(") ");
                        (**ret).write_display(symbols, out);
                        assert(out@ =~= start + display_ty(self@, syms));
                    },
                }
            },
            ArType::Nullable(inner) => {
                (**inner).write_display(symbols, out);
                out.append("?");
            },
            ArType::Slice(inner) => {
                out.append("[]");
                (**inner).write_display(symbols, out);
            },
            ArType::Array(size, inner) => {
                out.append("[");
                append_decimal(out, *size);
                out.append("]");
                (**inner).write_display(symbols, out);
            },
            ArType::Ptr(inner) => {
                out.append("ptr[");
                (**inner).write_display(symbols, out);
                out.append("]");
            },
            ArType::Tuple(items) => {
                out.append("(");
                write_display_list(items, symbols, out);
                out.append(")");
            },
            ArType::Result(ok, err) => {
                out.append("Result<");
                (**ok).write_display(symbols, out);
                out.append(", ");
                (**err).write_display(symbols, out);
                out.append(">");
            },
            ArType::Option(inner) => {
                out.append("Option<");
                (**inner).write_display(symbols, out);
                out.append(">");
            },
            ArType::ErrType => {
                out.append("Err");
            },
            ArType::Void => {
                out.append("void");
            },
            ArType::IntLiteral => {
                out.append("int");
            },
            ArType::FloatLiteral => {
                out.append("float");
            },
            ArType::Error => {
                out.append("<error>");
            },
        }
        assert(out@ =~= start + display_ty(self@, syms));
    }

    pub(crate) fn write_mangled(&self, symbols: &SymbolTable, out: &mut String)
        requires
            ty_ids_below(self@, symbols.symbol_seq().len()),
        ensures
            final(out)@ == old(out)@ + mangle_ty(self@, symbols.symbol_seq()),
        decreases self,
    {
        let ghost syms = symbols.symbol_seq();
        let ghost start = out@;
        match self {
            ArType::Primitive(p) => {
                out.append(p.as_str());
            },
            ArType::Named(id, args) => {
                assert(tys_view(args@).len() == args@.len());
                out.append(symbols.get(*id).name.as_str());
                write_mangled_list(args, symbols, out);
            },
            ArType::Func(params, ret) => {
                out.append("fn");
                write_mangled_list(params, symbols, out);
                out.append("_R_");
                (**ret).write_mangled(symbols, out);
            },
            ArType::Nullable(inner) => {
                out.append("opt_");
                (**inner).write_mangled(symbols, out);
            },
            ArType::Slice(inner) => {
                out.append("slice_");
                (**inner).write_mangled(symbols, out);
            },
            ArType::Array(size, inner) => {
                out.append("arr");
                append_decimal(out, *size);
                out.append("_");
                (**inner).write_mangled(symbols, out);
            },
            ArType::Ptr(inner) => {
                out.append("ptr_");
                (**inner).write_mangled(symbols, out);
            },
            ArType::Tuple(items) => {
                out.append("tup");
                write_mangled_list(items, symbols, out);
            },
            ArType::Result(ok, err) => {
                out.append("res_");
                (**ok).write_mangled(symbols, out);
                out.append("_");
                (**err).write_mangled(symbols, out);
            },
            ArType::Option(inner) => {
                out.append("option_");
                (**inner).write_mangled(symbols, out);
            },
            ArType::ErrType => {
                out.append("err");
            },
            ArType::Void => {
                out.append("void");
            },
            ArType::IntLiteral => {
                out.append("int");
            },
            ArType::FloatLiteral => {
                out.append("float");
            },
            ArType::Error => {
                out.append("error");
            },
        }
        assert(out@ =~= start + mangle_ty(self@, syms));
    }

    /// The linker-safe spelling of this type, as it appears inside a
    /// mangled symbol name.
    pub fn mangled(&self, symbols: &SymbolTable) -> (r: String)
        requires
            ty_ids_below(self@, symbols.symbol_seq().len()),
        ensures
            r@ == mangle_ty(self@, symbols.symbol_seq()),
    {
        let mut out = String::new();
        self.write_mangled(symbols, &mut out);
        assert(out@ =~= Seq::<char>::empty() + mangle_ty(self@, symbols.symbol_seq()));
        out
    }
}

fn write_display_list(items: &Vec<ArType>, symbols: &SymbolTable, out: &mut String)
    requires
        tys_ids_below(tys_view(items@), symbols.symbol_seq().len()),
    ensures
        final(out)@ == old(out)@ + display_list(tys_view(items@), symbols.symbol_seq()),
    decreases items,
{
    let ghost syms = symbols.symbol_seq();
    let ghost v = tys_view(items@);
    let ghost start = out@;
    let mut i: usize = 0;
    assert(v.skip(0) =~= v);
    while i < items.len()
        invariant
            v == tys_view(items@),
            v.len() == items@.len(),
            i <= items.len(),
            tys_ids_below(v.skip(i as int), symbols.symbol_seq().len()),
            syms == symbols.symbol_seq(),
            i == 0 ==> out@ == start,
            0 < i < items.len() ==> out@ + ", "@ + display_list(v.skip(i as int), syms) == start
                + display_list(v, syms),
            i == items.len() ==> out@ == start + display_list(v, syms),
        decreases items.len() - i,
    {
        assert(decreases_to!(items => items@[i as int]));
        let ghost rest = v.skip(i as int);
        assert(rest[0] == v[i as int]);
        assert(rest.drop_first() =~= v.skip(i + 1));
        if i > 0 {
            out.append(", ");
        }
        items[i].write_display(symbols, out);
        i += 1;
        proof {
            if i < items.len() {
                assert(out@ + ", "@ + display_list(v.skip(i as int), syms) =~= start + display_list(
                    v,
                    syms,
                ));
            } else {
                assert(out@ =~= start + display_list(v, syms));
            }
        }
    }
    assert(out@ =~= start + display_list(v, syms));
}

fn write_mangled_list(items: &Vec<ArType>, symbols: &SymbolTable, out: &mut String)
    requires
        tys_ids_below(tys_view(items@), symbols.symbol_seq().len()),
    ensures
        final(out)@ == old(out)@ + mangle_list(tys_view(items@), symbols.symbol_seq()),
    decreases items,
{
    let ghost syms = symbols.symbol_seq();
    let ghost v = tys_view(items@);
    let ghost start = out@;
    let mut i: usize = 0;
    assert(v.skip(0) =~= v);
    while i < items.len()
        invariant
            v == tys_view(items@),
            v.len() == items@.len(),
            i <= items.len(),
            tys_ids_below(v.skip(i as int), symbols.symbol_seq().len()),
            syms == symbols.symbol_seq(),
            out@ + mangle_list(v.skip(i as int), syms) == start + mangle_list(v, syms),
        decreases items.len() - i,
    {
        assert(decreases_to!(items => items@[i as int]));
        let ghost rest = v.skip(i as int);
        assert(rest[0] == v[i as int]);
        assert(rest.drop_first() =~= v.skip(i + 1));
        out.append("_");
        items[i].write_mangled(symbols, out);
        i += 1;
        assert(out@ + mangle_list(v.skip(i as int), syms) =~= start + mangle_list(v, syms));
    }
    assert(v.skip(i as int) =~= Seq::<TyView>::empty());
    assert(out@ =~= start + mangle_list(v, syms));
}


/// The first characters of a primitive's name.
proof fn lemma_name_chars(p: Primitive)
    ensures
        spec_name(p).len() >= 2,
        spec_name(p)[0] != 'o' && spec_name(p)[0] != 'p' && spec_name(p)[0] != 'r' && spec_name(p)[0] != 't',
        spec_name(p)[0] == 's' ==> spec_name(p)[1] == 't',
        spec_name(p)[0] == 'a' ==> spec_name(p)[1] == 'n',
        spec_name(p)[0] == 'f' ==> spec_name(p)[1] != 'n',
{
    reveal_strlit("int");
    reveal_strlit("uint");
    reveal_strlit("float");
    reveal_strlit("i8");
    reveal_strlit("i16");
    reveal_strlit("i32");
    reveal_strlit("i64");
    reveal_strlit("u8");
    reveal_strlit("u16");
    reveal_strlit("u32");
    reveal_strlit("u64");
    reveal_strlit("f32");
    reveal_strlit("f64");
    reveal_strlit("bool");
    reveal_strlit("byte");
    reveal_strlit("char");
    reveal_strlit("str");
    reveal_strlit("any");
}

/// The first characters of a mangled primitive or compound type, which
/// tell its constructor.
proof fn lemma_mangle_lead(t: TyView, syms: Seq<Symbol>)
    ensures
        ({
            let m = mangle_ty(t, syms);
            match t {
                TyView::Primitive(p) => m == spec_name(p),
                TyView::Func(_, _) => m.len() >= 2 && m[0] == 'f' && m[1] == 'n',
                TyView::Nullable(_) => m.len() >= 4 && m[0] == 'o' && m[3] == '_',
                TyView::Slice(_) => m.len() >= 2 && m[0] == 's' && m[1] == 'l',
                TyView::Array(_, _) => m.len() >= 2 && m[0] == 'a' && m[1] == 'r',
                TyView::Ptr(_) => m.len() >= 1 && m[0] == 'p',
                TyView::Tuple(_) => m.len() >= 1 && m[0] == 't',
                TyView::Result(_, _) => m.len() >= 1 && m[0] == 'r',
                TyView::Option(_) => m.len() >= 4 && m[0] == 'o' && m[3] == 'i',
                _ => true,
            }
        }),
{
    reveal_strlit("fn");
    reveal_strlit("opt_");
    reveal_strlit("slice_");
    reveal_strlit("arr");
    reveal_strlit("ptr_");
    reveal_strlit("tup");
    reveal_strlit("res_");
    reveal_strlit("option_");
    let m = mangle_ty(t, syms);
    match t {
        TyView::Func(params, ret) => {
            let h = "fn"@ + mangle_list(params, syms);
            assert(m == h + "_R_"@ + mangle_ty(*ret, syms));
            assert(m[0] == h[0] && m[1] == h[1]);
        },
        TyView::Nullable(inner) => assert(m[0] == "opt_"@[0] && m[3] == "opt_"@[3]),
        TyView::Slice(inner) => assert(m[0] == "slice_"@[0] && m[1] == "slice_"@[1]),
        TyView::Array(size, inner) => {
            let h = "arr"@ + decimal(size as nat);
            assert(m[0] == h[0] && m[1] == h[1]);
        },
        TyView::Ptr(inner) => assert(m[0] == "ptr_"@[0]),
        TyView::Tuple(items) => assert(m[0] == "tup"@[0]),
        TyView::Result(ok, err) => {
            let h = "res_"@ + mangle_ty(*ok, syms);
            assert(m[0] == h[0]);
        },
        TyView::Option(inner) => assert(m[0] == "option_"@[0] && m[3] == "option_"@[3]),
        _ => {},
    }
}

/// Whether `t` is a primitive or a type built with a function, nullable,
/// slice, array, pointer, tuple, `Result` or `Option` constructor.
pub open spec fn structural_head(t: TyView) -> bool {
    ty_head(t) == 0 || (2 <= ty_head(t) <= 9)
}

/// A mangled name tells the constructor of the type it spells: two
/// primitives or compound types with the same mangled form are built with
/// the same constructor, and two such primitives are the same primitive.
/// So a slice never shares a mangled name with a pointer, an option with a
/// nullable, and so on.
pub proof fn lemma_mangle_tells_constructor(a: TyView, b: TyView, syms: Seq<Symbol>)
    requires
        structural_head(a),
        structural_head(b),
        mangle_ty(a, syms) == mangle_ty(b, syms),
    ensures
        ty_head(a) == ty_head(b),
        a is Primitive ==> a == b,
{
    lemma_mangle_lead(a, syms);
    lemma_mangle_lead(b, syms);
    lemma_names_distinct();
    let m = mangle_ty(a, syms);
    if let TyView::Primitive(p) = a {
        lemma_name_chars(p);
    }
    if let TyView::Primitive(q) = b {
        lemma_name_chars(q);
    }
    assert(m == mangle_ty(b, syms));
}

/// The mangled form of a wrapped type determines the mangled form of what
/// it wraps.
pub proof fn lemma_mangle_wrapper_inner(x: TyView, y: TyView, syms: Seq<Symbol>)
    ensures
        mangle_ty(TyView::Nullable(Box::new(x)), syms) == mangle_ty(TyView::Nullable(Box::new(y)), syms)
            ==> mangle_ty(x, syms) == mangle_ty(y, syms),
        mangle_ty(TyView::Slice(Box::new(x)), syms) == mangle_ty(TyView::Slice(Box::new(y)), syms)
            ==> mangle_ty(x, syms) == mangle_ty(y, syms),
        mangle_ty(TyView::Ptr(Box::new(x)), syms) == mangle_ty(TyView::Ptr(Box::new(y)), syms)
            ==> mangle_ty(x, syms) == mangle_ty(y, syms),
        mangle_ty(TyView::Option(Box::new(x)), syms) == mangle_ty(TyView::Option(Box::new(y)), syms)
            ==> mangle_ty(x, syms) == mangle_ty(y, syms),
{
    lemma_cancel_prefix("opt_"@, mangle_ty(x, syms), mangle_ty(y, syms));
    lemma_cancel_prefix("slice_"@, mangle_ty(x, syms), mangle_ty(y, syms));
    lemma_cancel_prefix("ptr_"@, mangle_ty(x, syms), mangle_ty(y, syms));
    lemma_cancel_prefix("option_"@, mangle_ty(x, syms), mangle_ty(y, syms));
}

proof fn lemma_cancel_prefix(h: Seq<char>, u: Seq<char>, v: Seq<char>)
    ensures
        h + u == h + v ==> u == v,
{
    if h + u == h + v {
        assert(u =~= (h + u).skip(h.len() as int));
        assert(v =~= (h + v).skip(h.len() as int));
    }
}


proof fn lemma_decimal_shape(n: nat)
    ensures
        decimal(n).len() >= 1,
        n >= 10 ==> decimal(n).len() >= 2,
        forall|i: int| 0 <= i < decimal(n).len() ==> (#[trigger] decimal(n)[i]) != '_',
    decreases n,
{
    if n >= 10 {
        lemma_decimal_shape(n / 10);
        let d = decimal(n);
        assert forall|i: int| 0 <= i < d.len() implies (#[trigger] d[i]) != '_' by {
            if i < d.len() - 1 {
                assert(d[i] == decimal(n / 10)[i]);
            }
        }
    }
}

proof fn lemma_decimal_injective(n: nat, m: nat)
    requires
        decimal(n) == decimal(m),
    ensures
        n == m,
    decreases n,
{
    lemma_decimal_shape(n);
    lemma_decimal_shape(m);
    if n >= 10 && m >= 10 {
        let a = decimal(n);
        assert(a.last() == digit_char(n % 10));
        assert(decimal(m).last() == digit_char(m % 10));
        assert(decimal(n / 10) =~= a.drop_last());
        assert(decimal(m / 10) =~= decimal(m).drop_last());
        lemma_decimal_injective(n / 10, m / 10);
        assert(n % 10 == m % 10);
        assert(n == (n / 10) * 10 + n % 10);
        assert(m == (m / 10) * 10 + m % 10);
    } else if n < 10 && m < 10 {
        assert(decimal(n)[0] == digit_char(n));
        assert(decimal(m)[0] == digit_char(m));
    }
}

/// Arrays of different lengths, or of element types spelled differently,
/// are spelled differently: an array's mangled form tells its length and
/// its element's mangled form.
pub proof fn lemma_mangle_array(n: u64, x: TyView, m: u64, y: TyView, syms: Seq<Symbol>)
    requires
        mangle_ty(TyView::Array(n, Box::new(x)), syms) == mangle_ty(TyView::Array(m, Box::new(y)), syms),
    ensures
        n == m,
        mangle_ty(x, syms) == mangle_ty(y, syms),
{
    reveal_strlit("arr");
    reveal_strlit("_");
    let dn = decimal(n as nat);
    let dm = decimal(m as nat);
    let ln: int = dn.len() as int;
    let lm: int = dm.len() as int;
    lemma_decimal_shape(n as nat);
    lemma_decimal_shape(m as nat);
    let a = "arr"@ + dn + "_"@ + mangle_ty(x, syms);
    let b = "arr"@ + dm + "_"@ + mangle_ty(y, syms);
    assert(a == b);
    assert(a[3 + ln] == '_');
    assert(b[3 + lm] == '_');
    if ln < lm {
        assert(b[3 + ln] == dm[ln]);
    } else if lm < ln {
        assert(a[3 + lm] == dn[lm]);
    }
    assert(dn =~= a.subrange(3, 3 + ln));
    assert(dm =~= b.subrange(3, 3 + lm));
    lemma_decimal_injective(n as nat, m as nat);
    lemma_cancel_prefix("arr"@ + dn + "_"@, mangle_ty(x, syms), mangle_ty(y, syms));
}

} // verus!
