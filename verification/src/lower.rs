//! Lowering of parsed programs into the IR graph. The `*_s` functions state the result:
//! each node is interned after its children, children left to right, so the graph and
//! the ids are a fold over the syntax tree.

use vstd::prelude::*;
use crate::ir::{Graph, NodeKind, NodeV, ProvV, Provenance, default_prov, intern_s, attrs_v};
use crate::parser::{Expr, ExprV, Stmt, StmtV, expr_v, exprs_v, stmts_v, fields_v, pairs_v, strings_v};
use crate::strmap::{StrMap, lex_lt};
use crate::text::{dec_int, dec_digits, decimal_i64, push_char, push_str, string_from};
use crate::toklabel::{tok_label, tok_label_of};

use crate::decimal::{float_display, float_display_s};

verus! {

pub type NodeMap = Map<Seq<char>, NodeV>;

/// The parts joined with commas.
pub open spec fn join_comma(s: Seq<Seq<char>>) -> Seq<char>
    decreases s.len(),
{
    if s.len() == 0 {
        Seq::empty()
    } else if s.len() == 1 {
        s[0]
    } else {
        join_comma(s.drop_last()) + seq![','] + s.last()
    }
}

/// The `column:type` entries of a table schema.
pub open spec fn schema_parts(cols: Seq<(Seq<char>, Seq<char>)>) -> Seq<Seq<char>> {
    cols.map_values(|c: (Seq<char>, Seq<char>)| c.0 + seq![':'] + c.1)
}

pub open spec fn field_names(fs: Seq<(Seq<char>, ExprV)>) -> Seq<Seq<char>> {
    fs.map_values(|f: (Seq<char>, ExprV)| f.0)
}

pub open spec fn bool_text(b: bool) -> Seq<char> {
    if b {
        "true"@
    } else {
        "false"@
    }
}

/// The attributes of a query node, in key order.
pub open spec fn query_attrs(
    has_filter: bool,
    has_select: bool,
    source: Seq<char>,
    var: Seq<char>,
) -> Seq<(Seq<char>, Seq<char>)> {
    (if has_filter {
        seq![("has_filter"@, "true"@)]
    } else {
        Seq::empty()
    }) + (if has_select {
        seq![("has_select"@, "true"@)]
    } else {
        Seq::empty()
    }) + seq![("source"@, source), ("var"@, var)]
}

pub open spec fn lower_expr_s(g: NodeMap, e: ExprV, p: ProvV) -> (NodeMap, Seq<char>)
    decreases e,
{
    match e {
        ExprV::Int(n) => intern_s(
            g,
            NodeKind::Literal,
            seq![],
            seq![("type"@, "Int"@), ("value"@, dec_int(n as int))],
            p,
        ),
        ExprV::Float(x) => intern_s(
            g,
            NodeKind::Literal,
            seq![],
            seq![("type"@, "Float"@), ("value"@, float_display_s(x))],
            p,
        ),
        ExprV::Str(s) => intern_s(
            g,
            NodeKind::Literal,
            seq![],
            seq![("type"@, "Str"@), ("value"@, s)],
            p,
        ),
        ExprV::Bool(b) => intern_s(
            g,
            NodeKind::Literal,
            seq![],
            seq![("type"@, "Bool"@), ("value"@, bool_text(b))],
            p,
        ),
        ExprV::Nil => intern_s(g, NodeKind::Literal, seq![], seq![("type"@, "Nil"@)], p),
        ExprV::Ident(n) => intern_s(g, NodeKind::Ref, seq![], seq![("name"@, n)], p),
        ExprV::Unary(op, a) => {
            let (g1, c) = lower_expr_s(g, *a, p);
            intern_s(g1, NodeKind::Call, seq![c], seq![("op"@, tok_label(op))], p)
        },
        ExprV::Binary(op, a, b) => {
            let (g1, l) = lower_expr_s(g, *a, p);
            let (g2, r) = lower_expr_s(g1, *b, p);
            intern_s(g2, NodeKind::Call, seq![l, r], seq![("op"@, tok_label(op))], p)
        },
        ExprV::Call(f, args) => {
            let (g1, fid) = lower_expr_s(g, *f, p);
            let (g2, ids) = lower_exprs_s(g1, args, p);
            intern_s(g2, NodeKind::Call, seq![fid] + ids, seq![("form"@, "apply"@)], p)
        },
        ExprV::If(c, t, els) => {
            let (g1, cid) = lower_expr_s(g, *c, p);
            let (g2, tids) = lower_stmts_s(g1, t, p);
            let (g3, eids) = match els {
                Some(es) => lower_stmts_s(g2, es, p),
                None => (g2, Seq::empty()),
            };
            intern_s(g3, NodeKind::Match, seq![cid] + tids + eids, seq![("form"@, "if"@)], p)
        },
        ExprV::Block(ss) => {
            let (g1, ids) = lower_stmts_s(g, ss, p);
            intern_s(g1, NodeKind::Effect, ids, seq![("form"@, "block"@)], p)
        },
        ExprV::List(items) => {
            let (g1, ids) = lower_exprs_s(g, items, p);
            intern_s(g1, NodeKind::Record, ids, seq![("form"@, "list"@)], p)
        },
        ExprV::Record(fields) => {
            let (g1, ids) = lower_fields_s(g, fields, p);
            intern_s(g1, NodeKind::Record, ids, seq![("keys"@, join_comma(field_names(fields)))], p)
        },
        ExprV::Field(t, name) => {
            let (g1, c) = lower_expr_s(g, *t, p);
            intern_s(g1, NodeKind::Ref, seq![c], seq![("field"@, name)], p)
        },
        ExprV::Index(t, i) => {
            let (g1, a) = lower_expr_s(g, *t, p);
            let (g2, b) = lower_expr_s(g1, *i, p);
            intern_s(g2, NodeKind::Call, seq![a, b], seq![("op"@, "index"@)], p)
        },
        ExprV::Query { var, source, filter, select } => {
            let (g1, fids) = match filter {
                Some(f) => {
                    let (g1, id) = lower_expr_s(g, *f, p);
                    (g1, seq![id])
                },
                None => (g, Seq::empty()),
            };
            let (g2, sids) = match select {
                Some(s) => {
                    let (g2, id) = lower_expr_s(g1, *s, p);
                    (g2, seq![id])
                },
                None => (g1, Seq::empty()),
            };
            intern_s(
                g2,
                NodeKind::Query,
                fids + sids,
                query_attrs(filter is Some, select is Some, source, var),
                p,
            )
        },
    }
}

pub open spec fn lower_exprs_s(g: NodeMap, es: Seq<ExprV>, p: ProvV) -> (NodeMap, Seq<Seq<char>>)
    decreases es,
{
    if es.len() == 0 {
        (g, Seq::empty())
    } else {
        let (g1, ids) = lower_exprs_s(g, es.subrange(0, es.len() - 1), p);
        let (g2, id) = lower_expr_s(g1, es[es.len() - 1], p);
        (g2, ids.push(id))
    }
}

pub open spec fn lower_fields_s(g: NodeMap, fs: Seq<(Seq<char>, ExprV)>, p: ProvV) -> (
    NodeMap,
    Seq<Seq<char>>,
)
    decreases fs,
{
    if fs.len() == 0 {
        (g, Seq::empty())
    } else {
        let (g1, ids) = lower_fields_s(g, fs.subrange(0, fs.len() - 1), p);
        let (g2, id) = lower_expr_s(g1, fs[fs.len() - 1].1, p);
        (g2, ids.push(id))
    }
}

pub open spec fn lower_stmt_s(g: NodeMap, s: StmtV, p: ProvV) -> (NodeMap, Seq<char>)
    decreases s,
{
    match s {
        StmtV::Let(n, e) => {
            let (g1, c) = lower_expr_s(g, e, p);
            intern_s(
                g1,
                NodeKind::Effect,
                seq![c],
                seq![("binding"@, n), ("mutable"@, "false"@)],
                p,
            )
        },
        StmtV::Var(n, e) => {
            let (g1, c) = lower_expr_s(g, e, p);
            intern_s(
                g1,
                NodeKind::Effect,
                seq![c],
                seq![("binding"@, n), ("mutable"@, "true"@)],
                p,
            )
        },
        StmtV::Assign(n, e) => {
            let (g1, c) = lower_expr_s(g, e, p);
            intern_s(g1, NodeKind::Effect, seq![c], seq![("assign"@, n)], p)
        },
        StmtV::Fn(n, ps, body) => {
            let (g1, ids) = lower_stmts_s(g, body, p);
            intern_s(g1, NodeKind::Fn, ids, seq![("name"@, n), ("params"@, join_comma(ps))], p)
        },
        StmtV::While(c, body) => {
            let (g1, cid) = lower_expr_s(g, c, p);
            let (g2, ids) = lower_stmts_s(g1, body, p);
            intern_s(g2, NodeKind::Match, seq![cid] + ids, seq![("form"@, "while"@)], p)
        },
        StmtV::For(v, it, body) => {
            let (g1, iid) = lower_expr_s(g, it, p);
            let (g2, ids) = lower_stmts_s(g1, body, p);
            intern_s(
                g2,
                NodeKind::Match,
                seq![iid] + ids,
                seq![("form"@, "for"@), ("var"@, v)],
                p,
            )
        },
        StmtV::Return(e) => {
            let (g1, ids) = match e {
                Some(x) => {
                    let (g1, id) = lower_expr_s(g, x, p);
                    (g1, seq![id])
                },
                None => (g, Seq::empty()),
            };
            intern_s(g1, NodeKind::Effect, ids, seq![("effect"@, "return"@)], p)
        },
        StmtV::Table(n, cols) => intern_s(
            g,
            NodeKind::TableDef,
            seq![],
            seq![("name"@, n), ("schema"@, join_comma(schema_parts(cols)))],
            p,
        ),
        StmtV::Insert(n, r) => {
            let (g1, c) = lower_expr_s(g, r, p);
            intern_s(g1, NodeKind::Effect, seq![c], seq![("insert"@, n)], p)
        },
        StmtV::Expr(e) => lower_expr_s(g, e, p),
    }
}

pub open spec fn lower_stmts_s(g: NodeMap, ss: Seq<StmtV>, p: ProvV) -> (NodeMap, Seq<Seq<char>>)
    decreases ss,
{
    if ss.len() == 0 {
        (g, Seq::empty())
    } else {
        let (g1, ids) = lower_stmts_s(g, ss.subrange(0, ss.len() - 1), p);
        let (g2, id) = lower_stmt_s(g1, ss[ss.len() - 1], p);
        (g2, ids.push(id))
    }
}


/// The fixed attribute keys come in this order.
proof fn lemma_attr_keys_sorted()
    ensures
        lex_lt("type"@, "value"@),
        lex_lt("binding"@, "mutable"@),
        lex_lt("name"@, "params"@),
        lex_lt("form"@, "var"@),
        lex_lt("name"@, "schema"@),
        lex_lt("has_filter"@, "has_select"@),
        lex_lt("has_filter"@, "source"@),
        lex_lt("has_select"@, "source"@),
        lex_lt("source"@, "var"@),
{
    reveal_strlit("type");
    reveal_strlit("value");
    reveal_strlit("binding");
    reveal_strlit("mutable");
    reveal_strlit("name");
    reveal_strlit("params");
    reveal_strlit("form");
    reveal_strlit("var");
    reveal_strlit("schema");
    reveal_strlit("has_filter");
    reveal_strlit("has_select");
    reveal_strlit("source");
    reveal_with_fuel(lex_lt, 6);
}

fn attr1(k: &str, v: String) -> (m: StrMap<String>)
    ensures
        attrs_v(m) == seq![(k@, v@)],
{
    let mut m = StrMap::new();
    m.push_last(string_from(k), v);
    assert(attrs_v(m) =~= seq![(k@, v@)]);
    m
}

fn attr2(k1: &str, v1: String, k2: &str, v2: String) -> (m: StrMap<String>)
    requires
        lex_lt(k1@, k2@),
    ensures
        attrs_v(m) == seq![(k1@, v1@), (k2@, v2@)],
{
    let mut m = StrMap::new();
    m.push_last(string_from(k1), v1);
    m.push_last(string_from(k2), v2);
    assert(attrs_v(m) =~= seq![(k1@, v1@), (k2@, v2@)]);
    m
}

/// The parts joined with commas.
pub fn join_strs(parts: &Vec<String>) -> (s: String)
    ensures
        s@ == join_comma(strings_v(parts@)),
{
    let mut s = String::new();
    let mut i: usize = 0;
    while i < parts.len()
        invariant
            i <= parts@.len(),
            s@ == join_comma(strings_v(parts@).subrange(0, i as int)),
        decreases parts.len() - i,
    {
        assert(strings_v(parts@).subrange(0, i + 1).drop_last() =~= strings_v(parts@).subrange(
            0,
            i as int,
        ));
        if i > 0 {
            push_char(&mut s, ',');
        }
        push_str(&mut s, parts[i].as_str());
        i = i + 1;
    }
    assert(strings_v(parts@).subrange(0, parts@.len() as int) =~= strings_v(parts@));
    s
}

proof fn lemma_strings_push(a: Seq<String>, x: String)
    ensures
        strings_v(a.push(x)) == strings_v(a).push(x@),
{
    assert(strings_v(a.push(x)) =~= strings_v(a).push(x@));
}

proof fn lemma_strings_concat(a: Seq<String>, b: Seq<String>)
    ensures
        strings_v(a + b) == strings_v(a) + strings_v(b),
{
    assert(strings_v(a + b) =~= strings_v(a) + strings_v(b));
}

/// `first` followed by `rest`.
fn prepend(first: String, rest: Vec<String>) -> (r: Vec<String>)
    ensures
        strings_v(r@) == seq![first@] + strings_v(rest@),
{
    let ghost rv = rest@;
    let mut r: Vec<String> = Vec::new();
    r.push(first);
    let mut rest = rest;
    r.append(&mut rest);
    assert(strings_v(r@) =~= seq![first@] + strings_v(rv));
    r
}

fn concat(a: Vec<String>, b: Vec<String>) -> (r: Vec<String>)
    ensures
        strings_v(r@) == strings_v(a@) + strings_v(b@),
{
    let ghost av = a@;
    let ghost bv = b@;
    let mut r = a;
    let mut b = b;
    r.append(&mut b);
    proof {
        lemma_strings_concat(av, bv);
    }
    r
}

fn single(x: String) -> (r: Vec<String>)
    ensures
        strings_v(r@) == seq![x@],
{
    let mut r: Vec<String> = Vec::new();
    r.push(x);
    assert(strings_v(r@) =~= seq![x@]);
    r
}

fn literal(g: &mut Graph, ty: &str, value: String, p: &Provenance) -> (id: String)
    requires
        old(g).ids_match(),
        lex_lt("type"@, "value"@),
    ensures
        final(g).ids_match(),
        (final(g).nodes_v(), id@) == intern_s(
            old(g).nodes_v(),
            NodeKind::Literal,
            seq![],
            seq![("type"@, ty@), ("value"@, value@)],
            p@,
        ),
        final(g).roots == old(g).roots,
        final(g).meta == old(g).meta,
{
    let a = attr2("type", string_from(ty), "value", value);
    let ch: Vec<String> = Vec::new();
    assert(strings_v(ch@) =~= Seq::<Seq<char>>::empty());
    g.intern(NodeKind::Literal, ch, a, p.duplicate())
}

/// A float literal's node: its value shown as the `f64` it denotes.
fn float_literal(g: &mut Graph, x: &String, p: &Provenance) -> (id: String)
    requires
        old(g).ids_match(),
        lex_lt("type"@, "value"@),
    ensures
        final(g).ids_match(),
        (final(g).nodes_v(), id@) == intern_s(
            old(g).nodes_v(),
            NodeKind::Literal,
            seq![],
            seq![("type"@, "Float"@), ("value"@, float_display_s(x@))],
            p@,
        ),
        final(g).roots == old(g).roots,
        final(g).meta == old(g).meta,
{
    literal(g, "Float", float_display(x.as_str()), p)
}

/// The record's field names joined with commas.
fn record_keys(fields: &Vec<(String, Expr)>) -> (s: String)
    ensures
        s@ == join_comma(field_names(fields_v(fields@))),
{
    let mut names: Vec<String> = Vec::new();
    let mut i: usize = 0;
    while i < fields.len()
        invariant
            i <= fields@.len(),
            strings_v(names@) == field_names(fields_v(fields@)).subrange(0, i as int),
        decreases fields.len() - i,
    {
        proof {
            lemma_strings_push(names@, fields@[i as int].0);
        }
        names.push(fields[i].0.clone());
        i = i + 1;
        assert(strings_v(names@) =~= field_names(fields_v(fields@)).subrange(0, i as int));
    }
    assert(field_names(fields_v(fields@)).subrange(0, fields@.len() as int) =~= field_names(
        fields_v(fields@),
    ));
    join_strs(&names)
}

/// The attributes of a query node.
fn query_attr_map(has_filter: bool, has_select: bool, source: &String, var: &String) -> (m: StrMap<
    String,
>)
    ensures
        attrs_v(m) == query_attrs(has_filter, has_select, source@, var@),
{
    proof {
        lemma_attr_keys_sorted();
    }
    let mut at: StrMap<String> = StrMap::new();
    if has_filter {
        at.push_last(string_from("has_filter"), string_from("true"));
    }
    if has_select {
        at.push_last(string_from("has_select"), string_from("true"));
    }
    at.push_last(string_from("source"), source.clone());
    at.push_last(string_from("var"), var.clone());
    assert(attrs_v(at) =~= query_attrs(has_filter, has_select, source@, var@));
    at
}

/// Lowers an expression, interning its nodes; returns its id.
#[verifier::spinoff_prover]
#[verifier::rlimit(100)]
pub fn lower_expr(g: &mut Graph, e: &Expr, p: &Provenance) -> (id: String)
    requires
        old(g).ids_match(),
    ensures
        final(g).ids_match(),
        (final(g).nodes_v(), id@) == lower_expr_s(old(g).nodes_v(), e@, p@),
        final(g).roots == old(g).roots,
        final(g).meta == old(g).meta,
    decreases e, 1nat,
{
    proof {
        lemma_attr_keys_sorted();
    }
    let empty: Vec<String> = Vec::new();
    assert(strings_v(empty@) =~= Seq::<Seq<char>>::empty());
    match e {
        Expr::Int(n) => literal(g, "Int", decimal_i64(*n), p),
        Expr::Float(x) => float_literal(g, x, p),
        Expr::Str(x) => literal(g, "Str", x.clone(), p),
        Expr::Bool(b) => {
            let v = if *b {
                string_from("true")
            } else {
                string_from("false")
            };
            literal(g, "Bool", v, p)
        },
        Expr::Nil => {
            let a = attr1("type", string_from("Nil"));
            g.intern(NodeKind::Literal, empty, a, p.duplicate())
        },
        Expr::Ident(name) => {
            let a = attr1("name", name.clone());
            g.intern(NodeKind::Ref, empty, a, p.duplicate())
        },
        Expr::Unary(op, a) => {
            let c = lower_expr(g, a, p);
            let at = attr1("op", tok_label_of(op));
            g.intern(NodeKind::Call, single(c), at, p.duplicate())
        },
        Expr::Binary(op, a, b) => {
            let l = lower_expr(g, a, p);
            let r = lower_expr(g, b, p);
            let ch = prepend(l, single(r));
            assert(seq![l@] + seq![r@] =~= seq![l@, r@]);
            let at = attr1("op", tok_label_of(op));
            g.intern(NodeKind::Call, ch, at, p.duplicate())
        },
        Expr::Field(t, name) => {
            let c = lower_expr(g, t, p);
            let at = attr1("field", name.clone());
            g.intern(NodeKind::Ref, single(c), at, p.duplicate())
        },
        Expr::Index(t, i) => {
            let a = lower_expr(g, t, p);
            let b = lower_expr(g, i, p);
            let ch = prepend(a, single(b));
            assert(seq![a@] + seq![b@] =~= seq![a@, b@]);
            let at = attr1("op", string_from("index"));
            g.intern(NodeKind::Call, ch, at, p.duplicate())
        },
        _ => lower_compound(g, e, p),
    }
}

/// Lowers an expression with a sequence or optional parts.
#[verifier::spinoff_prover]
#[verifier::rlimit(100)]
fn lower_compound(g: &mut Graph, e: &Expr, p: &Provenance) -> (id: String)
    requires
        old(g).ids_match(),
        e is Call || e is If || e is Block || e is List || e is Record || e is Query,
    ensures
        final(g).ids_match(),
        (final(g).nodes_v(), id@) == lower_expr_s(old(g).nodes_v(), e@, p@),
        final(g).roots == old(g).roots,
        final(g).meta == old(g).meta,
    decreases e, 0nat,
{
    match e {
        Expr::If(c, then, els) => {
            let ghost g0 = g.nodes_v();
            let ghost els_v: Option<Seq<StmtV>> = match els {
                Some(v) => Some(stmts_v(v@)),
                None => None,
            };
            assert(e@ == ExprV::If(Box::new(c@), stmts_v(then@), els_v));
            let cid = lower_expr(g, c, p);
            let tids = lower_stmts(g, then, p);
            let ghost g2 = g.nodes_v();
            let eids = match els {
                Some(es) => lower_stmts(g, es, p),
                None => {
                    let v: Vec<String> = Vec::new();
                    assert(strings_v(v@) =~= Seq::<Seq<char>>::empty());
                    v
                },
            };
            assert((g.nodes_v(), strings_v(eids@)) == match els_v {
                Some(es) => lower_stmts_s(g2, es, p@),
                None => (g2, Seq::<Seq<char>>::empty()),
            });
            let ghost g3 = g.nodes_v();
            let ghost tv = strings_v(tids@);
            let ghost ev = strings_v(eids@);
            let ch = prepend(cid, concat(tids, eids));
            assert(strings_v(ch@) == seq![cid@] + tv + ev);
            let at = attr1("form", string_from("if"));
            let r = g.intern(NodeKind::Match, ch, at, p.duplicate());
            assert(lower_expr_s(g0, e@, p@) == intern_s(g3, NodeKind::Match, seq![cid@] + tv + ev, seq![("form"@, "if"@)], p@));
            r
        },
        Expr::Call(f, args) => {
            let ghost g0 = g.nodes_v();
            assert(e@ == ExprV::Call(Box::new(f@), exprs_v(args@)));
            let fid = lower_expr(g, f, p);
            let ghost g1 = g.nodes_v();
            assert(lower_expr_s(g0, f@, p@) == (g1, fid@));
            let ids = lower_exprs(g, args, p);
            let ghost g2 = g.nodes_v();
            assert(lower_exprs_s(g1, exprs_v(args@), p@) == (g2, strings_v(ids@)));
            let ch = prepend(fid, ids);
            let at = attr1("form", string_from("apply"));
            let r = g.intern(NodeKind::Call, ch, at, p.duplicate());
            assert((g.nodes_v(), r@) == intern_s(g2, NodeKind::Call, seq![fid@] + strings_v(ids@), seq![("form"@, "apply"@)], p@));
            assert(lower_expr_s(g0, e@, p@) == intern_s(g2, NodeKind::Call, seq![fid@] + strings_v(ids@), seq![("form"@, "apply"@)], p@));
            assert(old(g).nodes_v() == g0);
            assert((g.nodes_v(), r@) == lower_expr_s(old(g).nodes_v(), e@, p@));
            assert(g.ids_match());
            assert(g.roots == old(g).roots);
            r
        },
        Expr::Block(ss) => {
            assert(e@ == ExprV::Block(stmts_v(ss@)));
            let ids = lower_stmts(g, ss, p);
            let at = attr1("form", string_from("block"));
            g.intern(NodeKind::Effect, ids, at, p.duplicate())
        },
        Expr::List(items) => {
            assert(e@ == ExprV::List(exprs_v(items@)));
            let ids = lower_exprs(g, items, p);
            let at = attr1("form", string_from("list"));
            g.intern(NodeKind::Record, ids, at, p.duplicate())
        },
        Expr::Record(fields) => {
            assert(e@ == ExprV::Record(fields_v(fields@)));
            let ids = lower_fields(g, fields, p);
            let at = attr1("keys", record_keys(fields));
            g.intern(NodeKind::Record, ids, at, p.duplicate())
        },
        Expr::Query { var, source, filter, select } => {
            assert(e@ == expr_v(Expr::Query { var: *var, source: *source, filter: *filter, select: *select }));
            let fids = match filter {
                Some(f) => single(lower_expr(g, f, p)),
                None => Vec::new(),
            };
            assert(fids@.len() == 0 ==> strings_v(fids@) =~= Seq::<Seq<char>>::empty());
            let sids = match select {
                Some(x) => single(lower_expr(g, x, p)),
                None => Vec::new(),
            };
            assert(sids@.len() == 0 ==> strings_v(sids@) =~= Seq::<Seq<char>>::empty());
            let at = query_attr_map(filter.is_some(), select.is_some(), source, var);
            g.intern(NodeKind::Query, concat(fids, sids), at, p.duplicate())
        },
        _ => {
            proof {
                assert(false);
            }
            String::new()
        },
    }
}

/// Lowers expressions left to right; returns their ids in order.
pub fn lower_exprs(g: &mut Graph, es: &Vec<Expr>, p: &Provenance) -> (ids: Vec<String>)
    requires
        old(g).ids_match(),
    ensures
        final(g).ids_match(),
        (final(g).nodes_v(), strings_v(ids@)) == lower_exprs_s(old(g).nodes_v(), exprs_v(es@), p@),
        final(g).roots == old(g).roots,
        final(g).meta == old(g).meta,
    decreases es, 0nat,
{
    let mut ids: Vec<String> = Vec::new();
    let mut i: usize = 0;
    assert(exprs_v(es@).subrange(0, 0) =~= Seq::<ExprV>::empty());
    assert(strings_v(ids@) =~= Seq::<Seq<char>>::empty());
    while i < es.len()
        invariant
            i <= es@.len(),
            g.ids_match(),
            (g.nodes_v(), strings_v(ids@)) == lower_exprs_s(
                old(g).nodes_v(),
                exprs_v(es@).subrange(0, i as int),
                p@,
            ),
            g.roots == old(g).roots,
            g.meta == old(g).meta,
        decreases es.len() - i,
    {
        assert(exprs_v(es@).subrange(0, i + 1).subrange(0, i as int) =~= exprs_v(es@).subrange(
            0,
            i as int,
        ));
        let id = lower_expr(g, &es[i], p);
        proof {
            lemma_strings_push(ids@, id);
        }
        ids.push(id);
        i = i + 1;
    }
    assert(exprs_v(es@).subrange(0, es@.len() as int) =~= exprs_v(es@));
    ids
}

/// Lowers the values of record fields left to right; returns their ids in order.
pub fn lower_fields(g: &mut Graph, fs: &Vec<(String, Expr)>, p: &Provenance) -> (ids: Vec<String>)
    requires
        old(g).ids_match(),
    ensures
        final(g).ids_match(),
        (final(g).nodes_v(), strings_v(ids@)) == lower_fields_s(old(g).nodes_v(), fields_v(fs@), p@),
        final(g).roots == old(g).roots,
        final(g).meta == old(g).meta,
    decreases fs, 0nat,
{
    let mut ids: Vec<String> = Vec::new();
    let mut i: usize = 0;
    assert(fields_v(fs@).subrange(0, 0) =~= Seq::<(Seq<char>, ExprV)>::empty());
    assert(strings_v(ids@) =~= Seq::<Seq<char>>::empty());
    while i < fs.len()
        invariant
            i <= fs@.len(),
            g.ids_match(),
            (g.nodes_v(), strings_v(ids@)) == lower_fields_s(
                old(g).nodes_v(),
                fields_v(fs@).subrange(0, i as int),
                p@,
            ),
            g.roots == old(g).roots,
            g.meta == old(g).meta,
        decreases fs.len() - i,
    {
        assert(fields_v(fs@).subrange(0, i + 1).subrange(0, i as int) =~= fields_v(fs@).subrange(
            0,
            i as int,
        ));
        let id = lower_expr(g, &fs[i].1, p);
        proof {
            lemma_strings_push(ids@, id);
        }
        ids.push(id);
        i = i + 1;
    }
    assert(fields_v(fs@).subrange(0, fs@.len() as int) =~= fields_v(fs@));
    ids
}

/// Lowers a statement, interning its nodes; returns its id.
#[verifier::spinoff_prover]
#[verifier::rlimit(100)]
pub fn lower_stmt(g: &mut Graph, s: &Stmt, p: &Provenance) -> (id: String)
    requires
        old(g).ids_match(),
    ensures
        final(g).ids_match(),
        (final(g).nodes_v(), id@) == lower_stmt_s(old(g).nodes_v(), s@, p@),
        final(g).roots == old(g).roots,
        final(g).meta == old(g).meta,
    decreases s, 0nat,
{
    proof {
        lemma_attr_keys_sorted();
    }
    match s {
        Stmt::Let(name, e) => {
            let c = lower_expr(g, e, p);
            let a = attr2("binding", name.clone(), "mutable", string_from("false"));
            g.intern(NodeKind::Effect, single(c), a, p.duplicate())
        },
        Stmt::Var(name, e) => {
            let c = lower_expr(g, e, p);
            let a = attr2("binding", name.clone(), "mutable", string_from("true"));
            g.intern(NodeKind::Effect, single(c), a, p.duplicate())
        },
        Stmt::Assign(name, e) => {
            let c = lower_expr(g, e, p);
            let a = attr1("assign", name.clone());
            g.intern(NodeKind::Effect, single(c), a, p.duplicate())
        },
        Stmt::Fn(name, params, body) => {
            let ids = lower_stmts(g, body, p);
            let a = attr2("name", name.clone(), "params", join_strs(params));
            g.intern(NodeKind::Fn, ids, a, p.duplicate())
        },
        Stmt::While(cond, body) => {
            let c = lower_expr(g, cond, p);
            let ids = lower_stmts(g, body, p);
            let a = attr1("form", string_from("while"));
            g.intern(NodeKind::Match, prepend(c, ids), a, p.duplicate())
        },
        Stmt::For(var, iter, body) => {
            let it = lower_expr(g, iter, p);
            let ids = lower_stmts(g, body, p);
            let a = attr2("form", string_from("for"), "var", var.clone());
            g.intern(NodeKind::Match, prepend(it, ids), a, p.duplicate())
        },
        Stmt::Return(e) => {
            let ch = match e {
                Some(x) => single(lower_expr(g, x, p)),
                None => Vec::new(),
            };
            assert(ch@.len() == 0 ==> strings_v(ch@) =~= Seq::<Seq<char>>::empty());
            let a = attr1("effect", string_from("return"));
            g.intern(NodeKind::Effect, ch, a, p.duplicate())
        },
        Stmt::Table(name, cols) => {
            let mut parts: Vec<String> = Vec::new();
            let mut i: usize = 0;
            while i < cols.len()
                invariant
                    i <= cols@.len(),
                    strings_v(parts@) == schema_parts(pairs_v(cols@)).subrange(0, i as int),
                decreases cols.len() - i,
            {
                let mut part = cols[i].0.clone();
                push_char(&mut part, ':');
                push_str(&mut part, cols[i].1.as_str());
                assert(part@ == schema_parts(pairs_v(cols@))[i as int]);
                proof {
                    lemma_strings_push(parts@, part);
                }
                parts.push(part);
                i = i + 1;
                assert(strings_v(parts@) =~= schema_parts(pairs_v(cols@)).subrange(0, i as int));
            }
            assert(schema_parts(pairs_v(cols@)).subrange(0, cols@.len() as int) =~= schema_parts(
                pairs_v(cols@),
            ));
            let empty: Vec<String> = Vec::new();
            assert(strings_v(empty@) =~= Seq::<Seq<char>>::empty());
            let a = attr2("name", name.clone(), "schema", join_strs(&parts));
            g.intern(NodeKind::TableDef, empty, a, p.duplicate())
        },
        Stmt::Insert(name, rec) => {
            let r = lower_expr(g, rec, p);
            let a = attr1("insert", name.clone());
            g.intern(NodeKind::Effect, single(r), a, p.duplicate())
        },
        Stmt::Expr(e) => lower_expr(g, e, p),
    }
}

/// Lowers statements in order; returns their ids in order.
pub fn lower_stmts(g: &mut Graph, ss: &Vec<Stmt>, p: &Provenance) -> (ids: Vec<String>)
    requires
        old(g).ids_match(),
    ensures
        final(g).ids_match(),
        (final(g).nodes_v(), strings_v(ids@)) == lower_stmts_s(old(g).nodes_v(), stmts_v(ss@), p@),
        final(g).roots == old(g).roots,
        final(g).meta == old(g).meta,
    decreases ss, 0nat,
{
    let mut ids: Vec<String> = Vec::new();
    let mut i: usize = 0;
    assert(stmts_v(ss@).subrange(0, 0) =~= Seq::<StmtV>::empty());
    assert(strings_v(ids@) =~= Seq::<Seq<char>>::empty());
    while i < ss.len()
        invariant
            i <= ss@.len(),
            g.ids_match(),
            (g.nodes_v(), strings_v(ids@)) == lower_stmts_s(
                old(g).nodes_v(),
                stmts_v(ss@).subrange(0, i as int),
                p@,
            ),
            g.roots == old(g).roots,
            g.meta == old(g).meta,
        decreases ss.len() - i,
    {
        assert(stmts_v(ss@).subrange(0, i + 1).subrange(0, i as int) =~= stmts_v(ss@).subrange(
            0,
            i as int,
        ));
        let id = lower_stmt(g, &ss[i], p);
        proof {
            lemma_strings_push(ids@, id);
        }
        ids.push(id);
        i = i + 1;
    }
    assert(stmts_v(ss@).subrange(0, ss@.len() as int) =~= stmts_v(ss@));
    ids
}


/// The graph of a program: its nodes, its statements' ids as roots, and the node count.
pub open spec fn lowered(stmts: Seq<StmtV>) -> (NodeMap, Seq<Seq<char>>) {
    lower_stmts_s(Map::empty(), stmts, default_prov())
}

/// Lowers a parsed program into the IR graph. Every node gets the default provenance,
/// each statement's id is a root, and `meta` records the node count.
pub fn lower(stmts: &[Stmt]) -> (g: Graph)
    ensures
        g.ids_match(),
        g.nodes_v() == lowered(stmts_v(stmts@)).0,
        strings_v(g.roots@) == lowered(stmts_v(stmts@)).1,
        g.meta.map().dom() == set!["node_count"@],
        g.meta.map()["node_count"@]@ == dec_digits(g.nodes.map().dom().len()),
{
    let mut g = Graph::new();
    let prov = Provenance::default();
    let mut i: usize = 0;
    assert(stmts_v(stmts@).subrange(0, 0) =~= Seq::<StmtV>::empty());
    assert(strings_v(g.roots@) =~= Seq::<Seq<char>>::empty());
    while i < stmts.len()
        invariant
            i <= stmts@.len(),
            g.ids_match(),
            prov@ == default_prov(),
            g.meta.map() == Map::<Seq<char>, String>::empty(),
            (g.nodes_v(), strings_v(g.roots@)) == lower_stmts_s(
                Map::empty(),
                stmts_v(stmts@).subrange(0, i as int),
                default_prov(),
            ),
        decreases stmts.len() - i,
    {
        assert(stmts_v(stmts@).subrange(0, i + 1).subrange(0, i as int) =~= stmts_v(stmts@).subrange(
            0,
            i as int,
        ));
        let id = lower_stmt(&mut g, &stmts[i], &prov);
        proof {
            lemma_strings_push(g.roots@, id);
        }
        g.roots.push(id);
        i = i + 1;
    }
    assert(stmts_v(stmts@).subrange(0, stmts@.len() as int) =~= stmts_v(stmts@));
    let count = g.len();
    let mut digits = String::new();
    crate::text::push_decimal(&mut digits, count as u64);
    g.meta.insert(string_from("node_count"), digits);
    assert(g.meta.map().dom() =~= set!["node_count"@]);
    g
}


/// Every child id of every node names a node of the graph.
pub open spec fn node_closed(g: NodeMap) -> bool {
    forall|id: Seq<char>, j: int|
        g.dom().contains(id) && 0 <= j < g[id].children.len() ==> g.dom().contains(
            #[trigger] g[id].children[j],
        )
}

/// `rank` gives every node of `g` and each of its children a rank, a child's rank below its
/// parent's.
pub open spec fn ranked_by(g: NodeMap, rank: Map<Seq<char>, nat>) -> bool {
    forall|id: Seq<char>, j: int|
        g.dom().contains(id) && 0 <= j < g[id].children.len() ==> rank.dom().contains(id)
            && rank.dom().contains(#[trigger] g[id].children[j]) && rank[g[id].children[j]] < rank[id]
}

/// The child links of `g` have no cycle: its nodes can be ranked with every child below its
/// parent.
pub open spec fn acyclic(g: NodeMap) -> bool {
    exists|rank: Map<Seq<char>, nat>| ranked_by(g, rank)
}

/// `g2` keeps every node of `g` unchanged; each node it adds is stored under its own id
/// with provenance `p`; and it is closed, and acyclic, if `g` is.
#[verifier::opaque]
pub open spec fn grows(g: NodeMap, g2: NodeMap, p: ProvV) -> bool {
    &&& forall|id: Seq<char>| #[trigger] g.dom().contains(id) ==> g2.dom().contains(id) && g2[id] == g[id]
    &&& forall|id: Seq<char>| #[trigger]
        g2.dom().contains(id) && !g.dom().contains(id) ==> g2[id].provenance == p && g2[id].id == id
    &&& (node_closed(g) ==> node_closed(g2))
    &&& (node_closed(g) && acyclic(g) ==> acyclic(g2))
}

/// The highest rank among `ids`, or zero.
spec fn max_rank(rank: Map<Seq<char>, nat>, ids: Seq<Seq<char>>) -> nat
    decreases ids.len(),
{
    if ids.len() == 0 {
        0
    } else {
        let m = max_rank(rank, ids.drop_last());
        if rank[ids.last()] > m {
            rank[ids.last()]
        } else {
            m
        }
    }
}

proof fn lemma_max_rank(rank: Map<Seq<char>, nat>, ids: Seq<Seq<char>>)
    ensures
        forall|j: int| 0 <= j < ids.len() ==> rank[#[trigger] ids[j]] <= max_rank(rank, ids),
    decreases ids.len(),
{
    if ids.len() > 0 {
        lemma_max_rank(rank, ids.drop_last());
        assert forall|j: int| 0 <= j < ids.len() implies rank[#[trigger] ids[j]] <= max_rank(rank, ids) by {
            if j < ids.len() - 1 {
                assert(ids[j] == ids.drop_last()[j]);
            }
        }
    }
}

/// Adding a node whose children are all ranked nodes of a closed, ranked graph keeps it
/// ranked.
proof fn lemma_intern_acyclic(
    g: NodeMap,
    k: NodeKind,
    ch: Seq<Seq<char>>,
    a: Seq<(Seq<char>, Seq<char>)>,
    p: ProvV,
)
    requires
        all_in(ch, g),
        node_closed(g),
        acyclic(g),
    ensures
        acyclic(intern_s(g, k, ch, a, p).0),
{
    let (r, id) = intern_s(g, k, ch, a, p);
    if !g.dom().contains(id) {
        let rank = choose|rank: Map<Seq<char>, nat>| ranked_by(g, rank);
        // every node of `g` gets a rank, leaves included
        let base = Map::new(
            |x: Seq<char>| g.dom().contains(x),
            |x: Seq<char>| if rank.dom().contains(x) {
                rank[x]
            } else {
                0nat
            },
        );
        lemma_max_rank(base, ch);
        let rank2 = base.insert(id, max_rank(base, ch) + 1);
        assert forall|x: Seq<char>, j: int|
            r.dom().contains(x) && 0 <= j < r[x].children.len() implies rank2.dom().contains(x)
                && rank2.dom().contains(#[trigger] r[x].children[j]) && rank2[r[x].children[j]] < rank2[x] by {
            if x == id {
                assert(r[x].children == ch);
                assert(g.dom().contains(ch[j]));
            } else {
                assert(r[x] == g[x]);
                assert(g.dom().contains(g[x].children[j]));
            }
        }
        assert(ranked_by(r, rank2));
    }
}

pub open spec fn all_in(ids: Seq<Seq<char>>, g: NodeMap) -> bool {
    forall|j: int| 0 <= j < ids.len() ==> g.dom().contains(#[trigger] ids[j])
}

proof fn lemma_grows_trans(g1: NodeMap, g2: NodeMap, g3: NodeMap, p: ProvV)
    requires
        grows(g1, g2, p),
        grows(g2, g3, p),
    ensures
        grows(g1, g3, p),
{
    reveal(grows);
}

proof fn lemma_grows_refl(g: NodeMap, p: ProvV)
    ensures
        grows(g, g, p),
{
    reveal(grows);
}

proof fn lemma_intern_grows(
    g: NodeMap,
    k: NodeKind,
    ch: Seq<Seq<char>>,
    a: Seq<(Seq<char>, Seq<char>)>,
    p: ProvV,
)
    requires
        all_in(ch, g),
    ensures
        grows(g, intern_s(g, k, ch, a, p).0, p),
        intern_s(g, k, ch, a, p).0.dom().contains(intern_s(g, k, ch, a, p).1),
{
    reveal(grows);
    let r = intern_s(g, k, ch, a, p).0;
    if node_closed(g) && acyclic(g) {
        lemma_intern_acyclic(g, k, ch, a, p);
    }
    if node_closed(g) {
        assert forall|id: Seq<char>, j: int|
            r.dom().contains(id) && 0 <= j < r[id].children.len() implies r.dom().contains(
            #[trigger] r[id].children[j],
        ) by {
            if g.dom().contains(id) {
                assert(g.dom().contains(g[id].children[j]));
            } else {
                assert(g.dom().contains(ch[j]));
            }
        }
    }
}

proof fn lemma_all_in_grows(ids: Seq<Seq<char>>, g: NodeMap, g2: NodeMap, p: ProvV)
    requires
        all_in(ids, g),
        grows(g, g2, p),
    ensures
        all_in(ids, g2),
{
    reveal(grows);
    assert forall|j: int| 0 <= j < ids.len() implies g2.dom().contains(#[trigger] ids[j]) by {
        assert(g.dom().contains(ids[j]));
    }
}

proof fn lemma_pair_in(l: Seq<char>, r: Seq<char>, g1: NodeMap, g2: NodeMap, p: ProvV)
    requires
        g1.dom().contains(l),
        g2.dom().contains(r),
        grows(g1, g2, p),
    ensures
        all_in(seq![l, r], g2),
{
    reveal(grows);
}

proof fn lemma_all_in_concat(a: Seq<Seq<char>>, b: Seq<Seq<char>>, g: NodeMap)
    requires
        all_in(a, g),
        all_in(b, g),
    ensures
        all_in(a + b, g),
{
    assert forall|j: int| 0 <= j < (a + b).len() implies g.dom().contains(#[trigger] (a + b)[j]) by {
        if j < a.len() {
            assert((a + b)[j] == a[j]);
        } else {
            assert((a + b)[j] == b[j - a.len()]);
        }
    }
}

/// Lowering an expression only adds nodes, and its id names a node of the result.
#[verifier::spinoff_prover]
#[verifier::rlimit(100)]
pub proof fn lemma_lower_expr_grows(g: NodeMap, e: ExprV, p: ProvV)
    ensures
        grows(g, lower_expr_s(g, e, p).0, p),
        lower_expr_s(g, e, p).0.dom().contains(lower_expr_s(g, e, p).1),
    decreases e, 1nat,
{
    let es: Seq<Seq<char>> = Seq::empty();
    assert(all_in(es, g));
    match e {
        ExprV::Int(n) => lemma_intern_grows(g, NodeKind::Literal, seq![], seq![("type"@, "Int"@), ("value"@, dec_int(n as int))], p),
        ExprV::Float(x) => lemma_intern_grows(g, NodeKind::Literal, seq![], seq![("type"@, "Float"@), ("value"@, float_display_s(x))], p),
        ExprV::Str(x) => lemma_intern_grows(g, NodeKind::Literal, seq![], seq![("type"@, "Str"@), ("value"@, x)], p),
        ExprV::Bool(b) => lemma_intern_grows(g, NodeKind::Literal, seq![], seq![("type"@, "Bool"@), ("value"@, bool_text(b))], p),
        ExprV::Nil => lemma_intern_grows(g, NodeKind::Literal, seq![], seq![("type"@, "Nil"@)], p),
        ExprV::Ident(n) => lemma_intern_grows(g, NodeKind::Ref, seq![], seq![("name"@, n)], p),
        ExprV::Unary(op, a) => {
            let (g1, c) = lower_expr_s(g, *a, p);
            lemma_lower_expr_grows(g, *a, p);
            lemma_intern_grows(g1, NodeKind::Call, seq![c], seq![("op"@, tok_label(op))], p);
            lemma_grows_trans(g, g1, lower_expr_s(g, e, p).0, p);
        },
        ExprV::Binary(op, a, b) => {
            let (g1, l) = lower_expr_s(g, *a, p);
            let (g2, r) = lower_expr_s(g1, *b, p);
            lemma_lower_expr_grows(g, *a, p);
            lemma_lower_expr_grows(g1, *b, p);
            lemma_pair_in(l, r, g1, g2, p);
            lemma_intern_grows(g2, NodeKind::Call, seq![l, r], seq![("op"@, tok_label(op))], p);
            lemma_grows_trans(g, g1, g2, p);
            lemma_grows_trans(g, g2, lower_expr_s(g, e, p).0, p);
        },
        ExprV::Field(t, name) => {
            let (g1, c) = lower_expr_s(g, *t, p);
            lemma_lower_expr_grows(g, *t, p);
            lemma_intern_grows(g1, NodeKind::Ref, seq![c], seq![("field"@, name)], p);
            lemma_grows_trans(g, g1, lower_expr_s(g, e, p).0, p);
        },
        ExprV::Index(t, i) => {
            let (g1, a) = lower_expr_s(g, *t, p);
            let (g2, b) = lower_expr_s(g1, *i, p);
            lemma_lower_expr_grows(g, *t, p);
            lemma_lower_expr_grows(g1, *i, p);
            lemma_pair_in(a, b, g1, g2, p);
            lemma_intern_grows(g2, NodeKind::Call, seq![a, b], seq![("op"@, "index"@)], p);
            lemma_grows_trans(g, g1, g2, p);
            lemma_grows_trans(g, g2, lower_expr_s(g, e, p).0, p);
        },
        _ => lemma_lower_compound_grows(g, e, p),
    }
}

#[verifier::spinoff_prover]
#[verifier::rlimit(100)]
proof fn lemma_lower_compound_grows(g: NodeMap, e: ExprV, p: ProvV)
    requires
        e is Call || e is If || e is Block || e is List || e is Record || e is Query,
    ensures
        grows(g, lower_expr_s(g, e, p).0, p),
        lower_expr_s(g, e, p).0.dom().contains(lower_expr_s(g, e, p).1),
    decreases e, 0nat,
{
    match e {
        ExprV::Call(f, args) => {
            let (g1, fid) = lower_expr_s(g, *f, p);
            let (g2, ids) = lower_exprs_s(g1, args, p);
            lemma_lower_expr_grows(g, *f, p);
            lemma_lower_exprs_grows(g1, args, p);
            lemma_all_in_grows(seq![fid], g1, g2, p);
            lemma_all_in_concat(seq![fid], ids, g2);
            lemma_intern_grows(g2, NodeKind::Call, seq![fid] + ids, seq![("form"@, "apply"@)], p);
            lemma_grows_trans(g, g1, g2, p);
            lemma_grows_trans(g, g2, lower_expr_s(g, e, p).0, p);
        },
        ExprV::If(c, t, els) => {
            let (g1, cid) = lower_expr_s(g, *c, p);
            let (g2, tids) = lower_stmts_s(g1, t, p);
            let (g3, eids) = match els {
                Some(x) => lower_stmts_s(g2, x, p),
                None => (g2, Seq::empty()),
            };
            lemma_lower_expr_grows(g, *c, p);
            lemma_lower_stmts_grows(g1, t, p);
            match els {
                Some(x) => lemma_lower_stmts_grows(g2, x, p),
                None => lemma_grows_refl(g2, p),
            }
            lemma_all_in_grows(seq![cid], g1, g2, p);
            lemma_all_in_grows(seq![cid], g2, g3, p);
            lemma_all_in_grows(tids, g2, g3, p);
            lemma_all_in_concat(seq![cid], tids, g3);
            lemma_all_in_concat(seq![cid] + tids, eids, g3);
            lemma_intern_grows(g3, NodeKind::Match, seq![cid] + tids + eids, seq![("form"@, "if"@)], p);
            lemma_grows_trans(g, g1, g2, p);
            lemma_grows_trans(g, g2, g3, p);
            lemma_grows_trans(g, g3, lower_expr_s(g, e, p).0, p);
        },
        ExprV::Block(ss) => {
            let (g1, ids) = lower_stmts_s(g, ss, p);
            lemma_lower_stmts_grows(g, ss, p);
            lemma_intern_grows(g1, NodeKind::Effect, ids, seq![("form"@, "block"@)], p);
            lemma_grows_trans(g, g1, lower_expr_s(g, e, p).0, p);
        },
        ExprV::List(items) => {
            let (g1, ids) = lower_exprs_s(g, items, p);
            lemma_lower_exprs_grows(g, items, p);
            lemma_intern_grows(g1, NodeKind::Record, ids, seq![("form"@, "list"@)], p);
            lemma_grows_trans(g, g1, lower_expr_s(g, e, p).0, p);
        },
        ExprV::Record(fields) => {
            let (g1, ids) = lower_fields_s(g, fields, p);
            lemma_lower_fields_grows(g, fields, p);
            lemma_intern_grows(g1, NodeKind::Record, ids, seq![("keys"@, join_comma(field_names(fields)))], p);
            lemma_grows_trans(g, g1, lower_expr_s(g, e, p).0, p);
        },
        ExprV::Query { var, source, filter, select } => {
            let (g1, fids) = match filter {
                Some(f) => {
                    let (g1, id) = lower_expr_s(g, *f, p);
                    (g1, seq![id])
                },
                None => (g, Seq::empty()),
            };
            let (g2, sids) = match select {
                Some(x) => {
                    let (g2, id) = lower_expr_s(g1, *x, p);
                    (g2, seq![id])
                },
                None => (g1, Seq::empty()),
            };
            match filter {
                Some(f) => lemma_lower_expr_grows(g, *f, p),
                None => lemma_grows_refl(g, p),
            }
            match select {
                Some(x) => lemma_lower_expr_grows(g1, *x, p),
                None => lemma_grows_refl(g1, p),
            }
            lemma_all_in_grows(fids, g1, g2, p);
            lemma_all_in_concat(fids, sids, g2);
            lemma_intern_grows(
                g2,
                NodeKind::Query,
                fids + sids,
                query_attrs(filter is Some, select is Some, source, var),
                p,
            );
            lemma_grows_trans(g, g1, g2, p);
            lemma_grows_trans(g, g2, lower_expr_s(g, e, p).0, p);
        },
        _ => {},
    }
}

pub proof fn lemma_lower_exprs_grows(g: NodeMap, es: Seq<ExprV>, p: ProvV)
    ensures
        grows(g, lower_exprs_s(g, es, p).0, p),
        all_in(lower_exprs_s(g, es, p).1, lower_exprs_s(g, es, p).0),
    decreases es, 0nat,
{
    if es.len() == 0 {
        lemma_grows_refl(g, p);
    } else {
        let (g1, ids) = lower_exprs_s(g, es.subrange(0, es.len() - 1), p);
        let (g2, id) = lower_expr_s(g1, es[es.len() - 1], p);
        lemma_lower_exprs_grows(g, es.subrange(0, es.len() - 1), p);
        lemma_lower_expr_grows(g1, es[es.len() - 1], p);
        lemma_all_in_grows(ids, g1, g2, p);
        lemma_grows_trans(g, g1, g2, p);
        assert(all_in(ids.push(id), g2)) by {
            assert forall|j: int| 0 <= j < ids.push(id).len() implies g2.dom().contains(
                #[trigger] ids.push(id)[j],
            ) by {
                if j < ids.len() {
                    assert(ids.push(id)[j] == ids[j]);
                }
            }
        }
    }
}

pub proof fn lemma_lower_fields_grows(g: NodeMap, fs: Seq<(Seq<char>, ExprV)>, p: ProvV)
    ensures
        grows(g, lower_fields_s(g, fs, p).0, p),
        all_in(lower_fields_s(g, fs, p).1, lower_fields_s(g, fs, p).0),
    decreases fs, 0nat,
{
    if fs.len() == 0 {
        lemma_grows_refl(g, p);
    } else {
        let (g1, ids) = lower_fields_s(g, fs.subrange(0, fs.len() - 1), p);
        let (g2, id) = lower_expr_s(g1, fs[fs.len() - 1].1, p);
        lemma_lower_fields_grows(g, fs.subrange(0, fs.len() - 1), p);
        lemma_lower_expr_grows(g1, fs[fs.len() - 1].1, p);
        lemma_all_in_grows(ids, g1, g2, p);
        lemma_grows_trans(g, g1, g2, p);
        assert(all_in(ids.push(id), g2)) by {
            assert forall|j: int| 0 <= j < ids.push(id).len() implies g2.dom().contains(
                #[trigger] ids.push(id)[j],
            ) by {
                if j < ids.len() {
                    assert(ids.push(id)[j] == ids[j]);
                }
            }
        }
    }
}

/// Lowering a statement only adds nodes, and its id names a node of the result.
#[verifier::spinoff_prover]
#[verifier::rlimit(100)]
pub proof fn lemma_lower_stmt_grows(g: NodeMap, s: StmtV, p: ProvV)
    ensures
        grows(g, lower_stmt_s(g, s, p).0, p),
        lower_stmt_s(g, s, p).0.dom().contains(lower_stmt_s(g, s, p).1),
    decreases s, 1nat,
{
    let r = lower_stmt_s(g, s, p).0;
    match s {
        StmtV::Let(n, e) => {
            let (g1, c) = lower_expr_s(g, e, p);
            lemma_lower_expr_grows(g, e, p);
            lemma_intern_grows(g1, NodeKind::Effect, seq![c], seq![("binding"@, n), ("mutable"@, "false"@)], p);
            lemma_grows_trans(g, g1, r, p);
        },
        StmtV::Var(n, e) => {
            let (g1, c) = lower_expr_s(g, e, p);
            lemma_lower_expr_grows(g, e, p);
            lemma_intern_grows(g1, NodeKind::Effect, seq![c], seq![("binding"@, n), ("mutable"@, "true"@)], p);
            lemma_grows_trans(g, g1, r, p);
        },
        StmtV::Assign(n, e) => {
            let (g1, c) = lower_expr_s(g, e, p);
            lemma_lower_expr_grows(g, e, p);
            lemma_intern_grows(g1, NodeKind::Effect, seq![c], seq![("assign"@, n)], p);
            lemma_grows_trans(g, g1, r, p);
        },
        StmtV::Insert(n, e) => {
            let (g1, c) = lower_expr_s(g, e, p);
            lemma_lower_expr_grows(g, e, p);
            lemma_intern_grows(g1, NodeKind::Effect, seq![c], seq![("insert"@, n)], p);
            lemma_grows_trans(g, g1, r, p);
        },
        StmtV::Expr(e) => lemma_lower_expr_grows(g, e, p),
        _ => lemma_lower_block_stmt_grows(g, s, p),
    }
}

#[verifier::spinoff_prover]
proof fn lemma_lower_block_stmt_grows(g: NodeMap, s: StmtV, p: ProvV)
    requires
        s is Fn || s is While || s is For || s is Return || s is Table,
    ensures
        grows(g, lower_stmt_s(g, s, p).0, p),
        lower_stmt_s(g, s, p).0.dom().contains(lower_stmt_s(g, s, p).1),
    decreases s, 0nat,
{
    let r = lower_stmt_s(g, s, p).0;
    match s {
        StmtV::Fn(n, ps, body) => {
            let (g1, ids) = lower_stmts_s(g, body, p);
            lemma_lower_stmts_grows(g, body, p);
            lemma_intern_grows(g1, NodeKind::Fn, ids, seq![("name"@, n), ("params"@, join_comma(ps))], p);
            lemma_grows_trans(g, g1, r, p);
        },
        StmtV::While(c, body) => {
            let (g1, cid) = lower_expr_s(g, c, p);
            let (g2, ids) = lower_stmts_s(g1, body, p);
            lemma_lower_expr_grows(g, c, p);
            lemma_lower_stmts_grows(g1, body, p);
            lemma_all_in_grows(seq![cid], g1, g2, p);
            lemma_all_in_concat(seq![cid], ids, g2);
            lemma_intern_grows(g2, NodeKind::Match, seq![cid] + ids, seq![("form"@, "while"@)], p);
            lemma_grows_trans(g, g1, g2, p);
            lemma_grows_trans(g, g2, r, p);
        },
        StmtV::For(v, it, body) => {
            let (g1, iid) = lower_expr_s(g, it, p);
            let (g2, ids) = lower_stmts_s(g1, body, p);
            lemma_lower_expr_grows(g, it, p);
            lemma_lower_stmts_grows(g1, body, p);
            lemma_all_in_grows(seq![iid], g1, g2, p);
            lemma_all_in_concat(seq![iid], ids, g2);
            lemma_intern_grows(g2, NodeKind::Match, seq![iid] + ids, seq![("form"@, "for"@), ("var"@, v)], p);
            lemma_grows_trans(g, g1, g2, p);
            lemma_grows_trans(g, g2, r, p);
        },
        StmtV::Return(e) => {
            let (g1, ids) = match e {
                Some(x) => {
                    let (g1, id) = lower_expr_s(g, x, p);
                    (g1, seq![id])
                },
                None => (g, Seq::empty()),
            };
            match e {
                Some(x) => lemma_lower_expr_grows(g, x, p),
                None => lemma_grows_refl(g, p),
            }
            lemma_intern_grows(g1, NodeKind::Effect, ids, seq![("effect"@, "return"@)], p);
            lemma_grows_trans(g, g1, r, p);
        },
        StmtV::Table(n, cols) => {
            let es: Seq<Seq<char>> = Seq::empty();
            assert(all_in(es, g));
            lemma_intern_grows(g, NodeKind::TableDef, seq![], seq![("name"@, n), ("schema"@, join_comma(schema_parts(cols)))], p);
        },
        _ => {},
    }
}

pub proof fn lemma_lower_stmts_grows(g: NodeMap, ss: Seq<StmtV>, p: ProvV)
    ensures
        grows(g, lower_stmts_s(g, ss, p).0, p),
        all_in(lower_stmts_s(g, ss, p).1, lower_stmts_s(g, ss, p).0),
    decreases ss, 0nat,
{
    if ss.len() == 0 {
        lemma_grows_refl(g, p);
    } else {
        let (g1, ids) = lower_stmts_s(g, ss.subrange(0, ss.len() - 1), p);
        let (g2, id) = lower_stmt_s(g1, ss[ss.len() - 1], p);
        lemma_lower_stmts_grows(g, ss.subrange(0, ss.len() - 1), p);
        lemma_lower_stmt_grows(g1, ss[ss.len() - 1], p);
        lemma_all_in_grows(ids, g1, g2, p);
        lemma_grows_trans(g, g1, g2, p);
        assert(all_in(ids.push(id), g2)) by {
            assert forall|j: int| 0 <= j < ids.push(id).len() implies g2.dom().contains(
                #[trigger] ids.push(id)[j],
            ) by {
                if j < ids.len() {
                    assert(ids.push(id)[j] == ids[j]);
                }
            }
        }
    }
}

proof fn lemma_one_root_each(g: NodeMap, ss: Seq<StmtV>, p: ProvV)
    ensures
        lower_stmts_s(g, ss, p).1.len() == ss.len(),
    decreases ss.len(),
{
    if ss.len() > 0 {
        lemma_one_root_each(g, ss.subrange(0, ss.len() - 1), p);
    }
}

/// The lowered graph of any program: every node is stored under its own content
/// address and carries the default provenance, every child id names a node of the
/// graph, the child links have no cycle, and there is one root per top-level statement,
/// each naming a node of the graph.
pub proof fn law_lowered_graph_well_formed(stmts: Seq<StmtV>)
    ensures
        forall|id: Seq<char>| #[trigger]
            lowered(stmts).0.dom().contains(id) ==> lowered(stmts).0[id].provenance == default_prov()
                && lowered(stmts).0[id].id == id,
        node_closed(lowered(stmts).0),
        acyclic(lowered(stmts).0),
        lowered(stmts).1.len() == stmts.len(),
        all_in(lowered(stmts).1, lowered(stmts).0),
{
    let g0: NodeMap = Map::empty();
    assert(node_closed(g0));
    assert(ranked_by(g0, Map::<Seq<char>, nat>::empty()));
    lemma_lower_stmts_grows(g0, stmts, default_prov());
    lemma_one_root_each(g0, stmts, default_prov());
    reveal(grows);
}

/// Interning is idempotent: interning the same content again returns the same id and
/// leaves the graph as it was, whatever provenance the second call carries.
pub proof fn law_intern_dedups(
    g: NodeMap,
    k: NodeKind,
    ch: Seq<Seq<char>>,
    a: Seq<(Seq<char>, Seq<char>)>,
    p: ProvV,
    q: ProvV,
)
    ensures
        intern_s(intern_s(g, k, ch, a, p).0, k, ch, a, q) == intern_s(g, k, ch, a, p),
{
}

} // verus!
