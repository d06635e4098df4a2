//! Writing a syntax tree as FlowLang text, and reading it back: the text
//! written for a well-formed pipeline reads as that same pipeline.
use crate::compile::{decimal_chars, lemma_decimal_digits};
use crate::flowlang::{
    digits_end, ident_end, is_digit, is_ident_char, is_ident_start, is_space, kw_for, kw_in, kw_let, kw_pipeline,
    lex_from, lex_step, p_arg, p_args, p_block, p_call_rest, p_chain, p_expr, p_pipeline, p_stmt, quote_end,
    spec_parse, tok_at, AstView, ParseError, Sym, TokView,
};
use vstd::prelude::*;

verus! {

// ---------------------------------------------------------------------------
// Tokens of a tree.

/// The tokens of an expression.
pub open spec fn expr_toks(e: AstView) -> Seq<TokView>
    decreases e,
{
    match e {
        AstView::Call { name, args } => seq![TokView::Ident(name), TokView::Sym(Sym::LParen)] + args_toks(args)
            + seq![TokView::Sym(Sym::RParen)],
        AstView::Ident(n) => seq![TokView::Ident(n)],
        AstView::Str(s) => seq![TokView::Str(s)],
        AstView::Number(v) => seq![TokView::Num(v)],
        _ => Seq::empty(),
    }
}

/// The tokens of one call argument.
pub open spec fn arg_toks(a: (Option<Seq<char>>, AstView)) -> Seq<TokView>
    decreases a,
{
    match a.0 {
        Some(k) => seq![TokView::Ident(k), TokView::Sym(Sym::Assign)] + expr_toks(a.1),
        None => expr_toks(a.1),
    }
}

/// Arguments separated by commas.
pub open spec fn args_toks(s: Seq<(Option<Seq<char>>, AstView)>) -> Seq<TokView>
    decreases s,
{
    if s.len() == 0 {
        Seq::empty()
    } else {
        arg_toks(s[0]) + more_args_toks(s.drop_first())
    }
}

/// Further arguments, each after a comma.
pub open spec fn more_args_toks(s: Seq<(Option<Seq<char>>, AstView)>) -> Seq<TokView>
    decreases s,
{
    if s.len() == 0 {
        Seq::empty()
    } else {
        seq![TokView::Sym(Sym::Comma)] + arg_toks(s[0]) + more_args_toks(s.drop_first())
    }
}

/// Further calls of a chain, each after `->`.
pub open spec fn chain_toks(s: Seq<AstView>) -> Seq<TokView>
    decreases s,
{
    if s.len() == 0 {
        Seq::empty()
    } else {
        seq![TokView::Sym(Sym::Arrow)] + expr_toks(s[0]) + chain_toks(s.drop_first())
    }
}

/// The tokens of a statement.
pub open spec fn stmt_toks(st: AstView) -> Seq<TokView>
    decreases st,
{
    match st {
        AstView::Let { name, value } => seq![
            TokView::Ident(kw_let()),
            TokView::Ident(name),
            TokView::Sym(Sym::Assign),
        ] + expr_toks(*value),
        AstView::For { var, iterable, body } => seq![
            TokView::Ident(kw_for()),
            TokView::Ident(var),
            TokView::Ident(kw_in()),
        ] + expr_toks(*iterable) + seq![TokView::Sym(Sym::LBrace)] + block_toks(body) + seq![
            TokView::Sym(Sym::RBrace),
        ],
        AstView::Call { name, args } => expr_toks(st),
        AstView::Pipe { nodes } => if nodes.len() == 0 {
            Seq::empty()
        } else {
            expr_toks(nodes[0]) + chain_toks(nodes.drop_first())
        },
        _ => Seq::empty(),
    }
}

/// The tokens of a sequence of statements (without the braces).
pub open spec fn block_toks(s: Seq<AstView>) -> Seq<TokView>
    decreases s,
{
    if s.len() == 0 {
        Seq::empty()
    } else {
        stmt_toks(s[0]) + block_toks(s.drop_first())
    }
}

/// The tokens of a whole program.
pub open spec fn program_toks(a: AstView) -> Seq<TokView> {
    match a {
        AstView::Pipeline { name, body } => seq![
            TokView::Ident(kw_pipeline()),
            TokView::Str(name),
            TokView::Sym(Sym::LBrace),
        ] + block_toks(body) + seq![TokView::Sym(Sym::RBrace)],
        _ => Seq::empty(),
    }
}

// ---------------------------------------------------------------------------
// Well-formed trees: the shapes the parser produces.

/// An expression the parser can produce.
pub open spec fn wf_expr(e: AstView) -> bool
    decreases e,
{
    match e {
        AstView::Call { name, args } => wf_args(args),
        AstView::Ident(_) => true,
        AstView::Str(_) => true,
        AstView::Number(_) => true,
        _ => false,
    }
}

/// Arguments the parser can produce.
pub open spec fn wf_args(s: Seq<(Option<Seq<char>>, AstView)>) -> bool
    decreases s,
{
    s.len() > 0 ==> wf_expr(s[0].1) && wf_args(s.drop_first())
}

/// The links of a pipe: calls only.
pub open spec fn wf_calls(s: Seq<AstView>) -> bool
    decreases s,
{
    s.len() > 0 ==> s[0] is Call && wf_expr(s[0]) && wf_calls(s.drop_first())
}

/// A statement the parser can produce; a pipe has two links or more.
pub open spec fn wf_stmt(st: AstView) -> bool
    decreases st,
{
    match st {
        AstView::Let { name, value } => wf_expr(*value),
        AstView::For { var, iterable, body } => wf_expr(*iterable) && wf_block(body),
        AstView::Call { name, args } => wf_args(args),
        AstView::Pipe { nodes } => nodes.len() >= 2 && wf_calls(nodes),
        _ => false,
    }
}

/// Statements the parser can produce.
pub open spec fn wf_block(s: Seq<AstView>) -> bool
    decreases s,
{
    s.len() > 0 ==> wf_stmt(s[0]) && wf_block(s.drop_first())
}

/// A program the parser can produce.
pub open spec fn wf_program(a: AstView) -> bool {
    match a {
        AstView::Pipeline { name, body } => wf_block(body),
        _ => false,
    }
}

// ---------------------------------------------------------------------------
// Reading the tokens of a tree gives the tree.

/// `t` holds `x` from position `i` on.
pub open spec fn holds_at(t: Seq<TokView>, i: int, x: Seq<TokView>) -> bool {
    0 <= i && i + x.len() <= t.len() && t.subrange(i, i + x.len()) == x
}

proof fn lemma_holds_split(t: Seq<TokView>, i: int, x: Seq<TokView>, y: Seq<TokView>)
    requires
        holds_at(t, i, x + y),
    ensures
        holds_at(t, i, x),
        holds_at(t, i + x.len(), y),
{
    let w = t.subrange(i, i + x.len() + y.len());
    assert(w == x + y);
    assert forall|k: int| 0 <= k < x.len() implies t.subrange(i, i + x.len())[k] == x[k] by {
        assert(w[k] == t[i + k]);
        assert((x + y)[k] == x[k]);
    }
    assert(t.subrange(i, i + x.len()) =~= x);
    assert forall|k: int| 0 <= k < y.len() implies t.subrange(i + x.len(), i + x.len() + y.len())[k] == y[k] by {
        assert(w[x.len() + k] == t[i + x.len() + k]);
        assert((x + y)[x.len() + k] == y[k]);
    }
    assert(t.subrange(i + x.len(), i + x.len() + y.len()) =~= y);
}

proof fn lemma_holds_index(t: Seq<TokView>, i: int, x: Seq<TokView>, k: int)
    requires
        holds_at(t, i, x),
        0 <= k < x.len(),
    ensures
        t[i + k] == x[k],
{
    assert(t.subrange(i, i + x.len())[k] == t[i + k]);
}

proof fn lemma_expr_toks_nonempty(e: AstView)
    requires
        wf_expr(e),
    ensures
        expr_toks(e).len() >= 1,
        expr_toks(e)[0] is Ident || expr_toks(e)[0] is Str || expr_toks(e)[0] is Num,
{
}

proof fn lemma_stmt_toks_start(st: AstView)
    requires
        wf_stmt(st),
    ensures
        stmt_toks(st).len() >= 1,
        stmt_toks(st)[0] is Ident,
{
    match st {
        AstView::Pipe { nodes } => {
            assert(wf_expr(nodes[0]) && nodes[0] is Call);
        },
        _ => {},
    }
}

/// What may follow an expression without being read as part of it.
pub open spec fn expr_follow(t: Seq<TokView>, j: int) -> bool {
    !tok_at(t, j, Sym::LParen)
}

proof fn lemma_expr(t: Seq<TokView>, i: int, e: AstView)
    requires
        wf_expr(e),
        holds_at(t, i, expr_toks(e)),
        expr_follow(t, i + expr_toks(e).len()),
    ensures
        p_expr(t, i) == Some((e, i + expr_toks(e).len())),
    decreases e, 2int,
{
    let x = expr_toks(e);
    lemma_holds_index(t, i, x, 0);
    match e {
        AstView::Call { name, args } => {
            lemma_holds_index(t, i, x, 1);
            let rest = args_toks(args) + seq![TokView::Sym(Sym::RParen)];
            assert(x =~= seq![TokView::Ident(name), TokView::Sym(Sym::LParen)] + rest);
            lemma_holds_split(t, i, seq![TokView::Ident(name), TokView::Sym(Sym::LParen)], rest);
            lemma_call_rest(t, i + 2, name, args);
        },
        _ => {},
    }
}

proof fn lemma_call_rest(t: Seq<TokView>, i: int, name: Seq<char>, args: Seq<(Option<Seq<char>>, AstView)>)
    requires
        wf_args(args),
        holds_at(t, i, args_toks(args) + seq![TokView::Sym(Sym::RParen)]),
    ensures
        p_call_rest(t, name, i) == Some((AstView::Call { name, args }, i + args_toks(args).len() + 1)),
    decreases args, 1int,
{
    let rp = seq![TokView::Sym(Sym::RParen)];
    lemma_holds_split(t, i, args_toks(args), rp);
    lemma_holds_index(t, i + args_toks(args).len(), rp, 0);
    if args.len() == 0 {
        assert(args =~= Seq::<(Option<Seq<char>>, AstView)>::empty());
    } else {
        let a0 = args[0];
        let more = args.drop_first();
        assert(args_toks(args) == arg_toks(a0) + more_args_toks(more));
        lemma_arg_toks_start(a0);
        lemma_holds_split(t, i, arg_toks(a0), more_args_toks(more));
        lemma_holds_index(t, i, arg_toks(a0), 0);
        assert(!tok_at(t, i, Sym::RParen));
        lemma_args(t, i, Seq::empty(), args);
        assert(Seq::<(Option<Seq<char>>, AstView)>::empty() + args =~= args);
    }
}

proof fn lemma_arg_toks_start(a: (Option<Seq<char>>, AstView))
    requires
        wf_expr(a.1),
    ensures
        arg_toks(a).len() >= 1,
        !(arg_toks(a)[0] is Sym),
{
    lemma_expr_toks_nonempty(a.1);
}

proof fn lemma_args(
    t: Seq<TokView>,
    i: int,
    acc: Seq<(Option<Seq<char>>, AstView)>,
    s: Seq<(Option<Seq<char>>, AstView)>,
)
    requires
        s.len() >= 1,
        wf_args(s),
        holds_at(t, i, args_toks(s) + seq![TokView::Sym(Sym::RParen)]),
    ensures
        p_args(t, i, acc) == Some((acc + s, i + args_toks(s).len())),
    decreases s, 0int,
{
    let a0 = s[0];
    let more = s.drop_first();
    let rp = seq![TokView::Sym(Sym::RParen)];
    assert(args_toks(s) + rp =~= arg_toks(a0) + (more_args_toks(more) + rp));
    lemma_holds_split(t, i, arg_toks(a0), more_args_toks(more) + rp);
    let j = i + arg_toks(a0).len();
    if more.len() == 0 {
        assert(more_args_toks(more) + rp =~= rp);
        lemma_holds_index(t, j, rp, 0);
    } else {
        assert(more_args_toks(more) + rp =~= seq![TokView::Sym(Sym::Comma)] + (args_toks(more) + rp));
        lemma_holds_split(t, j, seq![TokView::Sym(Sym::Comma)], args_toks(more) + rp);
        lemma_holds_index(t, j, seq![TokView::Sym(Sym::Comma)], 0);
    }
    lemma_arg(t, i, a0);
    if more.len() == 0 {
        assert(acc.push(a0) =~= acc + s);
        assert(args_toks(s) =~= arg_toks(a0));
    } else {
        lemma_args(t, j + 1, acc.push(a0), more);
        assert(acc.push(a0) + more =~= acc + s);
    }
}

proof fn lemma_arg(t: Seq<TokView>, i: int, a: (Option<Seq<char>>, AstView))
    requires
        wf_expr(a.1),
        holds_at(t, i, arg_toks(a)),
        tok_at(t, i + arg_toks(a).len(), Sym::Comma) || tok_at(t, i + arg_toks(a).len(), Sym::RParen),
    ensures
        p_arg(t, i) == Some((a, i + arg_toks(a).len())),
    decreases a, 0int,
{
    let e = a.1;
    lemma_expr_toks_nonempty(e);
    match a.0 {
        Some(k) => {
            let head = seq![TokView::Ident(k), TokView::Sym(Sym::Assign)];
            lemma_holds_split(t, i, head, expr_toks(e));
            lemma_holds_index(t, i, head, 0);
            lemma_holds_index(t, i, head, 1);
            lemma_expr(t, i + 2, e);
        },
        None => {
            lemma_holds_index(t, i, expr_toks(e), 0);
            match e {
                AstView::Call { name, args } => {
                    lemma_holds_index(t, i, expr_toks(e), 1);
                },
                _ => {
                    assert(expr_toks(e).len() == 1);
                },
            }
            lemma_expr(t, i, e);
        },
    }
}

} // verus!

verus! {

proof fn lemma_chain(t: Seq<TokView>, i: int, acc: Seq<AstView>, s: Seq<AstView>)
    requires
        wf_calls(s),
        holds_at(t, i, chain_toks(s)),
        !tok_at(t, i + chain_toks(s).len(), Sym::Arrow),
    ensures
        p_chain(t, i, acc) == Some((acc + s, i + chain_toks(s).len())),
    decreases s.len(),
{
    if s.len() == 0 {
        assert(acc + s =~= acc);
    } else {
        let c = s[0];
        let rest = s.drop_first();
        match c {
            AstView::Call { name, args } => {
                let x = chain_toks(s);
                assert(x =~= seq![TokView::Sym(Sym::Arrow)] + expr_toks(c) + chain_toks(rest));
                lemma_holds_index(t, i, x, 0);
                lemma_holds_index(t, i, x, 1);
                lemma_holds_index(t, i, x, 2);
                let tail = args_toks(args) + seq![TokView::Sym(Sym::RParen)];
                assert(x =~= seq![TokView::Sym(Sym::Arrow), TokView::Ident(name), TokView::Sym(Sym::LParen)] + (
                tail + chain_toks(rest)));
                lemma_holds_split(
                    t,
                    i,
                    seq![TokView::Sym(Sym::Arrow), TokView::Ident(name), TokView::Sym(Sym::LParen)],
                    tail + chain_toks(rest),
                );
                lemma_holds_split(t, i + 3, tail, chain_toks(rest));
                lemma_call_rest(t, i + 3, name, args);
                let j = i + 3 + tail.len();
                lemma_chain(t, j, acc.push(c), rest);
                assert(acc.push(c) + rest =~= acc + s);
            },
            _ => {},
        }
    }
}

/// What may follow a statement: the next statement, or the closing `}`.
pub open spec fn stmt_follow(t: Seq<TokView>, j: int) -> bool {
    0 <= j < t.len() && (t[j] is Ident || t[j] == TokView::Sym(Sym::RBrace))
}

proof fn lemma_block_start(t: Seq<TokView>, i: int, s: Seq<AstView>)
    requires
        wf_block(s),
        holds_at(t, i, block_toks(s) + seq![TokView::Sym(Sym::RBrace)]),
    ensures
        stmt_follow(t, i),
{
    let x = block_toks(s) + seq![TokView::Sym(Sym::RBrace)];
    lemma_holds_index(t, i, x, 0);
    if s.len() > 0 {
        lemma_stmt_toks_start(s[0]);
        assert(x[0] == stmt_toks(s[0])[0]);
    }
}

#[verifier::rlimit(60)]
proof fn lemma_stmt(t: Seq<TokView>, i: int, st: AstView)
    requires
        wf_stmt(st),
        holds_at(t, i, stmt_toks(st)),
        stmt_follow(t, i + stmt_toks(st).len()),
    ensures
        p_stmt(t, i) == Some((st, i + stmt_toks(st).len())),
    decreases st,
{
    let x = stmt_toks(st);
    let n = x.len();
    assert(kw_let()[0] != kw_for()[0]);
    match st {
        AstView::Let { name, value } => {
            let head = seq![TokView::Ident(kw_let()), TokView::Ident(name), TokView::Sym(Sym::Assign)];
            lemma_holds_split(t, i, head, expr_toks(*value));
            lemma_holds_index(t, i, head, 0);
            lemma_holds_index(t, i, head, 1);
            lemma_holds_index(t, i, head, 2);
            lemma_expr(t, i + 3, *value);
        },
        AstView::For { var, iterable, body } => {
            let head = seq![TokView::Ident(kw_for()), TokView::Ident(var), TokView::Ident(kw_in())];
            let lb = seq![TokView::Sym(Sym::LBrace)];
            let tail = block_toks(body) + seq![TokView::Sym(Sym::RBrace)];
            assert(x =~= head + (expr_toks(*iterable) + (lb + tail)));
            lemma_holds_split(t, i, head, expr_toks(*iterable) + (lb + tail));
            lemma_holds_index(t, i, head, 0);
            lemma_holds_index(t, i, head, 1);
            lemma_holds_index(t, i, head, 2);
            lemma_holds_split(t, i + 3, expr_toks(*iterable), lb + tail);
            let j = i + 3 + expr_toks(*iterable).len();
            lemma_holds_split(t, j, lb, tail);
            lemma_holds_index(t, j, lb, 0);
            lemma_expr_toks_nonempty(*iterable);
            lemma_expr(t, i + 3, *iterable);
            lemma_block(t, j + 1, Seq::empty(), body);
            assert(Seq::<AstView>::empty() + body =~= body);
        },
        AstView::Call { name, args } => {
            lemma_holds_index(t, i, x, 0);
            lemma_holds_index(t, i, x, 1);
            let tail = args_toks(args) + seq![TokView::Sym(Sym::RParen)];
            assert(x =~= seq![TokView::Ident(name), TokView::Sym(Sym::LParen)] + tail);
            lemma_holds_split(t, i, seq![TokView::Ident(name), TokView::Sym(Sym::LParen)], tail);
            lemma_call_rest(t, i + 2, name, args);
            assert(chain_toks(Seq::<AstView>::empty()) =~= Seq::<TokView>::empty());
            assert(holds_at(t, i + n, Seq::<TokView>::empty())) by {
                assert(t.subrange(i + n, i + n) =~= Seq::<TokView>::empty());
            }
            lemma_chain(t, i + n, seq![st], Seq::empty());
            assert(seq![st] + Seq::<AstView>::empty() =~= seq![st]);
        },
        AstView::Pipe { nodes } => {
            let c = nodes[0];
            let rest = nodes.drop_first();
            assert(wf_expr(c) && c is Call);
            match c {
                AstView::Call { name, args } => {
                    let tail = args_toks(args) + seq![TokView::Sym(Sym::RParen)];
                    assert(x =~= seq![TokView::Ident(name), TokView::Sym(Sym::LParen)] + (tail + chain_toks(rest)));
                    lemma_holds_split(t, i, seq![TokView::Ident(name), TokView::Sym(Sym::LParen)], tail + chain_toks(rest));
                    lemma_holds_index(t, i, x, 0);
                    lemma_holds_index(t, i, x, 1);
                    lemma_holds_split(t, i + 2, tail, chain_toks(rest));
                    lemma_call_rest(t, i + 2, name, args);
                    let j = i + 2 + tail.len();
                    lemma_chain(t, j, seq![c], rest);
                    assert(seq![c] + rest =~= nodes);
                },
                _ => {},
            }
        },
        _ => {},
    }
}

proof fn lemma_block(t: Seq<TokView>, i: int, acc: Seq<AstView>, s: Seq<AstView>)
    requires
        wf_block(s),
        holds_at(t, i, block_toks(s) + seq![TokView::Sym(Sym::RBrace)]),
    ensures
        p_block(t, i, acc) == Some((acc + s, i + block_toks(s).len() + 1)),
    decreases s,
{
    let rb = seq![TokView::Sym(Sym::RBrace)];
    if s.len() == 0 {
        assert(block_toks(s) + rb =~= rb);
        lemma_holds_index(t, i, rb, 0);
        assert(acc + s =~= acc);
    } else {
        let st = s[0];
        let rest = s.drop_first();
        assert(block_toks(s) + rb =~= stmt_toks(st) + (block_toks(rest) + rb));
        lemma_holds_split(t, i, stmt_toks(st), block_toks(rest) + rb);
        let j = i + stmt_toks(st).len();
        lemma_block_start(t, j, rest);
        lemma_stmt_toks_start(st);
        lemma_holds_index(t, i, stmt_toks(st), 0);
        lemma_stmt(t, i, st);
        lemma_block(t, j, acc.push(st), rest);
        assert(acc.push(st) + rest =~= acc + s);
    }
}

/// The tokens written for a well-formed pipeline read as that pipeline.
pub proof fn lemma_program_tokens_read_back(a: AstView)
    requires
        wf_program(a),
    ensures
        p_pipeline(program_toks(a)) == Some(a),
{
    match a {
        AstView::Pipeline { name, body } => {
            let t = program_toks(a);
            let head = seq![TokView::Ident(kw_pipeline()), TokView::Str(name), TokView::Sym(Sym::LBrace)];
            let tail = block_toks(body) + seq![TokView::Sym(Sym::RBrace)];
            assert(t =~= head + tail);
            assert(holds_at(t, 0, t)) by {
                assert(t.subrange(0, t.len() as int) =~= t);
            }
            lemma_holds_split(t, 0, head, tail);
            lemma_block(t, 3, Seq::empty(), body);
            assert(Seq::<AstView>::empty() + body =~= body);
        },
        _ => {},
    }
}

} // verus!

verus! {

// ---------------------------------------------------------------------------
// Text of tokens.

/// The text of a punctuation token.
pub open spec fn sym_text(s: Sym) -> Seq<char> {
    match s {
        Sym::LBrace => seq!['{'],
        Sym::RBrace => seq!['}'],
        Sym::LParen => seq!['('],
        Sym::RParen => seq![')'],
        Sym::Comma => seq![','],
        Sym::Assign => seq!['='],
        Sym::Arrow => seq!['-', '>'],
    }
}

/// The decimal text of a number, with `-` before a negative one.
pub open spec fn num_text(v: int) -> Seq<char> {
    if v < 0 {
        seq!['-'] + decimal_chars((-v) as nat)
    } else {
        decimal_chars(v as nat)
    }
}

/// The text of a token; a string keeps its quotes.
pub open spec fn tok_text(t: TokView) -> Seq<char> {
    match t {
        TokView::Ident(n) => n,
        TokView::Str(s) => seq!['"'] + s + seq!['"'],
        TokView::Num(v) => num_text(v),
        TokView::Sym(s) => sym_text(s),
    }
}

/// Tokens written one after another, each followed by a space.
pub open spec fn toks_text(ts: Seq<TokView>) -> Seq<char>
    decreases ts.len(),
{
    if ts.len() == 0 {
        Seq::empty()
    } else {
        tok_text(ts[0]) + seq![' '] + toks_text(ts.drop_first())
    }
}

/// A token that can be written so as to read back as itself: an identifier
/// of identifier characters that starts with a letter or `_`, a string
/// without `"`, a number within `i64`.
pub open spec fn printable(t: TokView) -> bool {
    match t {
        TokView::Ident(n) => n.len() > 0 && is_ident_start(n[0]) && forall|k: int|
            0 <= k < n.len() ==> is_ident_char(#[trigger] n[k]),
        TokView::Str(s) => forall|k: int| 0 <= k < s.len() ==> #[trigger] s[k] != '"',
        TokView::Num(v) => i64::MIN <= v <= i64::MAX,
        TokView::Sym(_) => true,
    }
}

/// FlowLang text for a syntax tree.
pub open spec fn render(a: AstView) -> Seq<char> {
    toks_text(program_toks(a))
}

proof fn lemma_ident_run(s: Seq<char>, k: int, e: int)
    requires
        0 <= k <= e <= s.len(),
        forall|m: int| k <= m < e ==> is_ident_char(#[trigger] s[m]),
        e < s.len() ==> !is_ident_char(s[e]),
    ensures
        ident_end(s, k) == e,
    decreases e - k,
{
    if k < e {
        lemma_ident_run(s, k + 1, e);
    }
}

proof fn lemma_digit_run(s: Seq<char>, k: int, e: int)
    requires
        0 <= k <= e <= s.len(),
        forall|m: int| k <= m < e ==> is_digit(#[trigger] s[m]),
        e < s.len() ==> !is_digit(s[e]),
    ensures
        digits_end(s, k) == e,
    decreases e - k,
{
    if k < e {
        lemma_digit_run(s, k + 1, e);
    }
}

proof fn lemma_quote_run(s: Seq<char>, k: int, e: int)
    requires
        0 <= k <= e < s.len(),
        forall|m: int| k <= m < e ==> #[trigger] s[m] != '"',
        s[e] == '"',
    ensures
        quote_end(s, k) == e,
    decreases e - k,
{
    if k < e {
        lemma_quote_run(s, k + 1, e);
    }
}

/// A printable token written at `i` and followed by a space is read as itself.
proof fn lemma_lex_token(s: Seq<char>, i: int, t: TokView)
    requires
        printable(t),
        0 <= i,
        i + tok_text(t).len() < s.len(),
        s.subrange(i, i + tok_text(t).len()) == tok_text(t),
        s[i + tok_text(t).len()] == ' ',
    ensures
        tok_text(t).len() >= 1,
        !is_space(s[i]),
        lex_step(s, i) == Ok::<(TokView, int), ParseError>((t, i + tok_text(t).len())),
{
    let x = tok_text(t);
    let e = i + x.len();
    assert forall|m: int| 0 <= m < x.len() implies s[i + m] == x[m] by {
        assert(s.subrange(i, e)[m] == s[i + m]);
    }
    match t {
        TokView::Ident(n) => {
            assert(s[i] == n[0]);
            assert forall|m: int| i + 1 <= m < e implies is_ident_char(#[trigger] s[m]) by {
                assert(s[i + (m - i)] == n[m - i]);
            }
            lemma_ident_run(s, i + 1, e);
            assert(s.subrange(i, e) =~= n);
        },
        TokView::Num(v) => {
            if v < 0 {
                let d = decimal_chars((-v) as nat);
                lemma_decimal_digits((-v) as nat);
                assert(x =~= seq!['-'] + d);
                assert(s.subrange(i, e)[0] == s[i]);
                assert(s.subrange(i, e)[1] == s[i + 1]);
                assert(x[1] == d[0]);
                assert forall|m: int| i + 1 <= m < e implies is_digit(#[trigger] s[m]) by {
                    assert(s[i + (m - i)] == x[m - i]);
                    assert(x[m - i] == d[m - i - 1]);
                }
                lemma_digit_run(s, i + 1, e);
                assert(s.subrange(i + 1, e) =~= d) by {
                    assert forall|m: int| 0 <= m < d.len() implies s.subrange(i + 1, e)[m] == d[m] by {
                        assert(s[i + (m + 1)] == x[m + 1]);
                    }
                }
            } else {
                let d = decimal_chars(v as nat);
                lemma_decimal_digits(v as nat);
                assert(x == d);
                assert(s[i] == d[0]);
                assert forall|m: int| i + 1 <= m < e implies is_digit(#[trigger] s[m]) by {
                    assert(s[i + (m - i)] == x[m - i]);
                }
                lemma_digit_run(s, i + 1, e);
                assert(s.subrange(i, e) =~= d);
            }
        },
        TokView::Str(str) => {
            assert(x =~= seq!['"'] + str + seq!['"']);
            assert(s.subrange(i, e)[0] == s[i]);
            assert forall|m: int| i + 1 <= m < e - 1 implies #[trigger] s[m] != '"' by {
                assert(s[i + (m - i)] == x[m - i]);
                assert(x[m - i] == str[m - i - 1]);
            }
            assert(s[i + (x.len() - 1)] == x[x.len() - 1]);
            lemma_quote_run(s, i + 1, e - 1);
            assert(s.subrange(i + 1, e - 1) =~= str) by {
                assert forall|m: int| 0 <= m < str.len() implies s.subrange(i + 1, e - 1)[m] == str[m] by {
                    assert(s[i + (m + 1)] == x[m + 1]);
                }
            }
        },
        TokView::Sym(sy) => {
            assert(s[i] == x[0]);
            if sy == Sym::Arrow {
                assert(s[i + 1] == x[1]);
            }
        },
    }
}

proof fn lemma_lex_toks(s: Seq<char>, i: int, ts: Seq<TokView>)
    requires
        forall|k: int| 0 <= k < ts.len() ==> printable(#[trigger] ts[k]),
        0 <= i,
        i + toks_text(ts).len() == s.len(),
        s.subrange(i, s.len() as int) == toks_text(ts),
    ensures
        lex_from(s, i) == Ok::<Seq<TokView>, ParseError>(ts),
    decreases ts.len(),
{
    if ts.len() == 0 {
        assert(ts =~= Seq::<TokView>::empty());
    } else {
        let t0 = ts[0];
        let rest = ts.drop_first();
        let x = tok_text(t0);
        let e = i + x.len();
        let all = toks_text(ts);
        assert(all == x + seq![' '] + toks_text(rest));
        assert(s.subrange(i, e) =~= x) by {
            assert forall|m: int| 0 <= m < x.len() implies s.subrange(i, e)[m] == x[m] by {
                assert(s.subrange(i, s.len() as int)[m] == all[m]);
            }
        }
        assert(s[e] == ' ') by {
            assert(s.subrange(i, s.len() as int)[x.len() as int] == all[x.len() as int]);
        }
        assert(printable(ts[0]));
        lemma_lex_token(s, i, t0);
        assert(s.subrange(e + 1, s.len() as int) =~= toks_text(rest)) by {
            assert forall|m: int| 0 <= m < toks_text(rest).len() implies s.subrange(e + 1, s.len() as int)[m]
                == toks_text(rest)[m] by {
                assert(s.subrange(i, s.len() as int)[x.len() + 1 + m] == all[x.len() + 1 + m]);
            }
        }
        assert forall|k: int| 0 <= k < rest.len() implies printable(#[trigger] rest[k]) by {
            assert(rest[k] == ts[k + 1]);
        }
        lemma_lex_toks(s, e + 1, rest);
        assert(is_space(s[e]));
        assert(lex_from(s, e) == lex_from(s, e + 1));
        assert(seq![t0] + rest =~= ts);
    }
}

/// The text written for a well-formed pipeline whose tokens can all be
/// written reads back as that pipeline.
pub proof fn lemma_render_parses_back(a: AstView)
    requires
        wf_program(a),
        forall|k: int| 0 <= k < program_toks(a).len() ==> printable(#[trigger] program_toks(a)[k]),
    ensures
        spec_parse(render(a)) == Ok::<AstView, ParseError>(a),
{
    let s = render(a);
    assert(s.subrange(0, s.len() as int) =~= s);
    lemma_lex_toks(s, 0, program_toks(a));
    lemma_program_tokens_read_back(a);
}

} // verus!
