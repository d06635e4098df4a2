//! FlowLang: the pipeline language. Source text is split into tokens, and the
//! tokens are read as one `pipeline "name" { ... }` block of statements.
use vstd::prelude::*;

verus! {

/// A FlowLang syntax tree.
#[derive(Debug)]
pub enum ASTNode {
    Pipeline { name: String, body: Vec<ASTNode> },
    Let { name: String, value: Box<ASTNode> },
    For { var: String, iterable: Box<ASTNode>, body: Vec<ASTNode> },
    Call { name: String, args: Vec<(Option<String>, ASTNode)> },
    Pipe { nodes: Vec<ASTNode> },
    Ident(String),
    String(String),
    Number(i64),
}

/// A syntax tree with its strings as character sequences.
pub enum AstView {
    Pipeline { name: Seq<char>, body: Seq<AstView> },
    Let { name: Seq<char>, value: Box<AstView> },
    For { var: Seq<char>, iterable: Box<AstView>, body: Seq<AstView> },
    Call { name: Seq<char>, args: Seq<(Option<Seq<char>>, AstView)> },
    Pipe { nodes: Seq<AstView> },
    Ident(Seq<char>),
    Str(Seq<char>),
    Number(int),
}

/// An optional string by its characters.
pub open spec fn opt_view(o: Option<String>) -> Option<Seq<char>> {
    match o {
        Some(s) => Some(s@),
        None => None,
    }
}

/// A syntax tree with its strings read as characters.
pub open spec fn ast_view(n: ASTNode) -> AstView
    decreases n,
{
    match n {
        ASTNode::Pipeline { name, body } => AstView::Pipeline { name: name@, body: ast_views(body@) },
        ASTNode::Let { name, value } => AstView::Let { name: name@, value: Box::new(ast_view(*value)) },
        ASTNode::For { var, iterable, body } => AstView::For {
            var: var@,
            iterable: Box::new(ast_view(*iterable)),
            body: ast_views(body@),
        },
        ASTNode::Call { name, args } => AstView::Call { name: name@, args: arg_views(args@) },
        ASTNode::Pipe { nodes } => AstView::Pipe { nodes: ast_views(nodes@) },
        ASTNode::Ident(s) => AstView::Ident(s@),
        ASTNode::String(s) => AstView::Str(s@),
        ASTNode::Number(v) => AstView::Number(v as int),
    }
}

/// The views of a sequence of syntax trees.
pub open spec fn ast_views(s: Seq<ASTNode>) -> Seq<AstView>
    decreases s,
{
    if s.len() == 0 {
        Seq::empty()
    } else {
        ast_views(s.drop_last()).push(ast_view(s.last()))
    }
}

/// The views of a call's arguments.
pub open spec fn arg_views(s: Seq<(Option<String>, ASTNode)>) -> Seq<(Option<Seq<char>>, AstView)>
    decreases s,
{
    if s.len() == 0 {
        Seq::empty()
    } else {
        arg_views(s.drop_last()).push((opt_view(s.last().0), ast_view(s.last().1)))
    }
}

} // verus!

verus! {

/// Why FlowLang source was rejected.
#[derive(Debug, Clone, Copy, PartialEq, Eq, Structural)]
pub enum ParseError {
    /// A character that starts no token, or a string without its closing quote.
    Lexical,
    /// A number literal outside the range of `i64`.
    NumberOutOfRange,
    /// The tokens do not form a pipeline.
    Syntax,
}

/// Punctuation.
#[derive(Debug, Clone, Copy, PartialEq, Eq, Structural)]
pub enum Sym {
    LBrace,
    RBrace,
    LParen,
    RParen,
    Comma,
    Assign,
    Arrow,
}

/// A token of FlowLang source.
#[derive(Debug)]
pub enum Token {
    Ident(String),
    Str(String),
    Num(i64),
    Sym(Sym),
}

/// A token with its text as characters.
pub enum TokView {
    Ident(Seq<char>),
    Str(Seq<char>),
    Num(int),
    Sym(Sym),
}

/// A token with its text read as characters.
pub open spec fn tok_view(t: Token) -> TokView {
    match t {
        Token::Ident(s) => TokView::Ident(s@),
        Token::Str(s) => TokView::Str(s@),
        Token::Num(v) => TokView::Num(v as int),
        Token::Sym(s) => TokView::Sym(s),
    }
}

/// The views of a sequence of tokens.
pub open spec fn tok_views(s: Seq<Token>) -> Seq<TokView> {
    s.map_values(|t: Token| tok_view(t))
}

// ---------------------------------------------------------------------------
// Characters.

/// White space, which separates tokens.
pub open spec fn is_space(c: char) -> bool {
    c == ' ' || c == '\t' || c == '\n' || c == '\r'
}

/// A decimal digit.
pub open spec fn is_digit(c: char) -> bool {
    '0' <= c && c <= '9'
}

/// A character that may begin an identifier.
pub open spec fn is_ident_start(c: char) -> bool {
    ('a' <= c && c <= 'z') || ('A' <= c && c <= 'Z') || c == '_'
}

/// A character that may continue an identifier.
pub open spec fn is_ident_char(c: char) -> bool {
    is_ident_start(c) || is_digit(c)
}

/// The end of the run of identifier characters that starts at `i`.
pub open spec fn ident_end(s: Seq<char>, i: int) -> int
    decreases s.len() - i,
{
    if 0 <= i < s.len() && is_ident_char(s[i]) {
        ident_end(s, i + 1)
    } else {
        i
    }
}

/// The end of the run of digits that starts at `i`.
pub open spec fn digits_end(s: Seq<char>, i: int) -> int
    decreases s.len() - i,
{
    if 0 <= i < s.len() && is_digit(s[i]) {
        digits_end(s, i + 1)
    } else {
        i
    }
}

/// The position of the first `"` at or after `i` (the length if there is none).
pub open spec fn quote_end(s: Seq<char>, i: int) -> int
    decreases s.len() - i,
{
    if 0 <= i < s.len() && s[i] != '"' {
        quote_end(s, i + 1)
    } else {
        i
    }
}

/// The value of a string of decimal digits.
pub open spec fn digits_value(d: Seq<char>) -> int
    decreases d.len(),
{
    if d.len() == 0 {
        0
    } else {
        10 * digits_value(d.drop_last()) + (d.last() as int - '0' as int)
    }
}

/// The token that starts at `i` (which holds no space), and where it ends.
pub open spec fn lex_step(s: Seq<char>, i: int) -> Result<(TokView, int), ParseError> {
    let c = s[i];
    if is_ident_start(c) {
        let j = ident_end(s, i + 1);
        Ok((TokView::Ident(s.subrange(i, j)), j))
    } else if is_digit(c) {
        let j = digits_end(s, i + 1);
        let v = digits_value(s.subrange(i, j));
        if v <= i64::MAX {
            Ok((TokView::Num(v), j))
        } else {
            Err(ParseError::NumberOutOfRange)
        }
    } else if c == '-' && i + 1 < s.len() && s[i + 1] == '>' {
        Ok((TokView::Sym(Sym::Arrow), i + 2))
    } else if c == '-' && i + 1 < s.len() && is_digit(s[i + 1]) {
        let j = digits_end(s, i + 1);
        let v = -digits_value(s.subrange(i + 1, j));
        if v >= i64::MIN {
            Ok((TokView::Num(v), j))
        } else {
            Err(ParseError::NumberOutOfRange)
        }
    } else if c == '"' {
        let k = quote_end(s, i + 1);
        if k < s.len() {
            Ok((TokView::Str(s.subrange(i + 1, k)), k + 1))
        } else {
            Err(ParseError::Lexical)
        }
    } else if c == '{' {
        Ok((TokView::Sym(Sym::LBrace), i + 1))
    } else if c == '}' {
        Ok((TokView::Sym(Sym::RBrace), i + 1))
    } else if c == '(' {
        Ok((TokView::Sym(Sym::LParen), i + 1))
    } else if c == ')' {
        Ok((TokView::Sym(Sym::RParen), i + 1))
    } else if c == ',' {
        Ok((TokView::Sym(Sym::Comma), i + 1))
    } else if c == '=' {
        Ok((TokView::Sym(Sym::Assign), i + 1))
    } else {
        Err(ParseError::Lexical)
    }
}

/// The tokens of `s` from position `i` on; spaces separate tokens.
pub open spec fn lex_from(s: Seq<char>, i: int) -> Result<Seq<TokView>, ParseError>
    decreases s.len() - i,
{
    if i < 0 || i >= s.len() {
        Ok(Seq::empty())
    } else if is_space(s[i]) {
        lex_from(s, i + 1)
    } else {
        match lex_step(s, i) {
            Ok((t, j)) => if i < j <= s.len() {
                match lex_from(s, j) {
                    Ok(rest) => Ok(seq![t] + rest),
                    Err(e) => Err(e),
                }
            } else {
                Err(ParseError::Lexical)
            },
            Err(e) => Err(e),
        }
    }
}

/// The tokens of a whole source text.
pub open spec fn lex(s: Seq<char>) -> Result<Seq<TokView>, ParseError> {
    lex_from(s, 0)
}

/// `r` with the tokens `p` in front, when it holds tokens.
pub open spec fn prepend(p: Seq<TokView>, r: Result<Seq<TokView>, ParseError>) -> Result<Seq<TokView>, ParseError> {
    match r {
        Ok(x) => Ok(p + x),
        Err(e) => Err(e),
    }
}

// ---------------------------------------------------------------------------
// Exec character helpers.

fn char_is_space(c: char) -> (r: bool)
    ensures
        r == is_space(c),
{
    c == ' ' || c == '\t' || c == '\n' || c == '\r'
}

fn char_is_digit(c: char) -> (r: bool)
    ensures
        r == is_digit(c),
{
    '0' <= c && c <= '9'
}

fn char_is_ident_start(c: char) -> (r: bool)
    ensures
        r == is_ident_start(c),
{
    ('a' <= c && c <= 'z') || ('A' <= c && c <= 'Z') || c == '_'
}

fn char_is_ident_char(c: char) -> (r: bool)
    ensures
        r == is_ident_char(c),
{
    char_is_ident_start(c) || char_is_digit(c)
}

fn scan_ident(s: &Vec<char>, i: usize) -> (j: usize)
    requires
        i <= s@.len(),
    ensures
        j == ident_end(s@, i as int),
        i <= j <= s@.len(),
    decreases s@.len() - i,
{
    if i < s.len() && char_is_ident_char(s[i]) {
        scan_ident(s, i + 1)
    } else {
        i
    }
}

fn scan_digits(s: &Vec<char>, i: usize) -> (j: usize)
    requires
        i <= s@.len(),
    ensures
        j == digits_end(s@, i as int),
        i <= j <= s@.len(),
        forall|k: int| i <= k < j ==> is_digit(#[trigger] s@[k]),
    decreases s@.len() - i,
{
    if i < s.len() && char_is_digit(s[i]) {
        scan_digits(s, i + 1)
    } else {
        i
    }
}

fn scan_quote(s: &Vec<char>, i: usize) -> (j: usize)
    requires
        i <= s@.len(),
    ensures
        j == quote_end(s@, i as int),
        i <= j <= s@.len(),
    decreases s@.len() - i,
{
    if i < s.len() && s[i] != '"' {
        scan_quote(s, i + 1)
    } else {
        i
    }
}

/// Extending a string of digits never lowers its value.
proof fn lemma_digits_value_grows(d: Seq<char>, k: int)
    requires
        0 <= k <= d.len(),
        forall|m: int| 0 <= m < d.len() ==> is_digit(#[trigger] d[m]),
    ensures
        0 <= digits_value(d.take(k)) <= digits_value(d),
    decreases d.len() - k,
{
    if k < d.len() {
        lemma_digits_value_grows(d, k + 1);
        assert(d.take(k + 1).drop_last() =~= d.take(k));
        assert(d.take(k + 1).last() == d[k]);
    } else {
        assert(d.take(k) =~= d);
        lemma_digits_value_nonneg(d);
    }
}

proof fn lemma_digits_value_nonneg(d: Seq<char>)
    requires
        forall|m: int| 0 <= m < d.len() ==> is_digit(#[trigger] d[m]),
    ensures
        digits_value(d) >= 0,
    decreases d.len(),
{
    if d.len() > 0 {
        lemma_digits_value_nonneg(d.drop_last());
        assert(is_digit(d[d.len() - 1]));
    }
}

/// The value of a decimal digit.
fn digit_of(c: char) -> (r: i64)
    requires
        is_digit(c),
    ensures
        r as int == c as int - '0' as int,
{
    if c == '0' {
        0
    } else if c == '1' {
        1
    } else if c == '2' {
        2
    } else if c == '3' {
        3
    } else if c == '4' {
        4
    } else if c == '5' {
        5
    } else if c == '6' {
        6
    } else if c == '7' {
        7
    } else if c == '8' {
        8
    } else {
        9
    }
}

/// The value of the digits `s[i..j]`, or of their negation; `None` when it
/// does not fit in an `i64`.
fn digits_to_i64(s: &Vec<char>, i: usize, j: usize, negative: bool) -> (r: Option<i64>)
    requires
        i <= j <= s@.len(),
        forall|k: int| i <= k < j ==> is_digit(#[trigger] s@[k]),
    ensures
        ({
            let v = if negative { -digits_value(s@.subrange(i as int, j as int)) } else { digits_value(s@.subrange(i as int, j as int)) };
            match r {
                Some(x) => x as int == v,
                None => v < i64::MIN || v > i64::MAX,
            }
        }),
{
    let ghost d = s@.subrange(i as int, j as int);
    let mut acc: i64 = 0;
    let mut k: usize = i;
    while k < j
        invariant
            i <= k <= j <= s@.len(),
            d == s@.subrange(i as int, j as int),
            forall|m: int| 0 <= m < d.len() ==> is_digit(#[trigger] d[m]),
            forall|m: int| i <= m < j ==> is_digit(#[trigger] s@[m]),
            acc as int == if negative { -digits_value(d.take(k - i)) } else { digits_value(d.take(k - i)) },
        decreases j - k,
    {
        let dig = digit_of(s[k]);
        proof {
            assert(d.take(k + 1 - i).drop_last() =~= d.take(k - i));
            assert(d.take(k + 1 - i).last() == d[k - i]);
            assert(d[k - i] == s@[k as int]);
            lemma_digits_value_grows(d, k + 1 - i);
            lemma_digits_value_grows(d, k - i);
        }
        let step = if negative {
            match acc.checked_mul(10) {
                Some(m) => m.checked_sub(dig),
                None => None,
            }
        } else {
            match acc.checked_mul(10) {
                Some(m) => m.checked_add(dig),
                None => None,
            }
        };
        match step {
            Some(x) => {
                acc = x;
            },
            None => {
                return None;
            },
        }
        k = k + 1;
    }
    proof {
        assert(d.take(j - i) =~= d);
    }
    Some(acc)
}

} // verus!

verus! {

/// The characters of `input`.
fn chars_of(input: &str) -> (r: Vec<char>)
    ensures
        r@ == input@,
{
    let n = input.unicode_len();
    let mut r: Vec<char> = Vec::new();
    let mut i: usize = 0;
    while i < n
        invariant
            n == input@.len(),
            0 <= i <= n,
            r@ == input@.take(i as int),
        decreases n - i,
    {
        let c = input.get_char(i);
        r.push(c);
        proof {
            assert(input@.take(i + 1) =~= input@.take(i as int).push(c));
        }
        i = i + 1;
    }
    proof {
        assert(input@.take(n as int) =~= input@);
    }
    r
}

/// The characters `i..j` of `input`, as a string.
fn substring(input: &str, i: usize, j: usize) -> (r: String)
    requires
        i <= j <= input@.len(),
    ensures
        r@ == input@.subrange(i as int, j as int),
{
    input.substring_char(i, j).to_owned()
}

/// The token that starts at `i`, and where it ends.
fn lex_token(s: &Vec<char>, input: &str, i: usize) -> (r: Result<(Token, usize), ParseError>)
    requires
        s@ == input@,
        i < s@.len(),
        !is_space(s@[i as int]),
    ensures
        match r {
            Ok((t, j)) => lex_step(s@, i as int) == Ok::<(TokView, int), ParseError>((tok_view(t), j as int)) && i < j <= s@.len(),
            Err(e) => lex_step(s@, i as int) == Err::<(TokView, int), ParseError>(e),
        },
{
    let c = s[i];
    let n = s.len();
    if char_is_ident_start(c) {
        let j = scan_ident(s, i + 1);
        let name = substring(input, i, j);
        Ok((Token::Ident(name), j))
    } else if char_is_digit(c) {
        let j = scan_digits(s, i + 1);
        proof {
            lemma_digits_value_nonneg(s@.subrange(i as int, j as int));
        }
        match digits_to_i64(s, i, j, false) {
            Some(v) => Ok((Token::Num(v), j)),
            None => Err(ParseError::NumberOutOfRange),
        }
    } else if c == '-' && i + 1 < n && s[i + 1] == '>' {
        Ok((Token::Sym(Sym::Arrow), i + 2))
    } else if c == '-' && i + 1 < n && char_is_digit(s[i + 1]) {
        let j = scan_digits(s, i + 1);
        proof {
            lemma_digits_value_nonneg(s@.subrange(i + 1, j as int));
        }
        match digits_to_i64(s, i + 1, j, true) {
            Some(v) => Ok((Token::Num(v), j)),
            None => Err(ParseError::NumberOutOfRange),
        }
    } else if c == '"' {
        let k = scan_quote(s, i + 1);
        if k < n {
            let text = substring(input, i + 1, k);
            Ok((Token::Str(text), k + 1))
        } else {
            Err(ParseError::Lexical)
        }
    } else if c == '{' {
        Ok((Token::Sym(Sym::LBrace), i + 1))
    } else if c == '}' {
        Ok((Token::Sym(Sym::RBrace), i + 1))
    } else if c == '(' {
        Ok((Token::Sym(Sym::LParen), i + 1))
    } else if c == ')' {
        Ok((Token::Sym(Sym::RParen), i + 1))
    } else if c == ',' {
        Ok((Token::Sym(Sym::Comma), i + 1))
    } else if c == '=' {
        Ok((Token::Sym(Sym::Assign), i + 1))
    } else {
        Err(ParseError::Lexical)
    }
}

/// The FlowLang grammar's reader.
pub struct FlowLangParser;

impl FlowLangParser {
    /// Splits FlowLang source into tokens.
    pub fn tokenize(input: &str) -> (r: Result<Vec<Token>, ParseError>)
        ensures
            match r {
                Ok(ts) => lex(input@) == Ok::<Seq<TokView>, ParseError>(tok_views(ts@)),
                Err(e) => lex(input@) == Err::<Seq<TokView>, ParseError>(e),
            },
    {
        let s = chars_of(input);
        let n = s.len();
        let mut toks: Vec<Token> = Vec::new();
        let mut i: usize = 0;
        proof {
            assert(tok_views(toks@) =~= Seq::<TokView>::empty());
            assert(prepend(tok_views(toks@), lex_from(s@, 0)) =~= lex_from(s@, 0)) by {
                match lex_from(s@, 0) {
                    Ok(x) => {
                        assert(Seq::<TokView>::empty() + x =~= x);
                    },
                    Err(_) => {},
                }
            }
        }
        while i < n
            invariant
                s@ == input@,
                n == s@.len(),
                0 <= i <= n,
                lex(s@) == prepend(tok_views(toks@), lex_from(s@, i as int)),
            decreases n - i,
        {
            if char_is_space(s[i]) {
                i = i + 1;
            } else {
                match lex_token(&s, input, i) {
                    Ok((t, j)) => {
                        let ghost old = toks@;
                        proof {
                            let tv = tok_view(t);
                            assert(tok_views(old.push(t)) =~= tok_views(old).push(tv));
                            match lex_from(s@, j as int) {
                                Ok(rest) => {
                                    assert(tok_views(old) + (seq![tv] + rest) =~= tok_views(old).push(tv) + rest);
                                },
                                Err(_) => {},
                            }
                        }
                        toks.push(t);
                        i = j;
                    },
                    Err(e) => {
                        return Err(e);
                    },
                }
            }
        }
        proof {
            assert(tok_views(toks@) + Seq::<TokView>::empty() =~= tok_views(toks@));
        }
        Ok(toks)
    }
}


} // verus!

verus! {

// ---------------------------------------------------------------------------
// The grammar, over tokens. Each rule reads from position `i` and gives what
// it read and the position after it.
//
//   pipeline  := "pipeline" STRING "{" statement* "}"
//   statement := "let" IDENT "=" expr
//              | "for" IDENT "in" expr "{" statement* "}"
//              | call ("->" call)*          (one call, or a pipe of calls)
//   call      := IDENT "(" [arg ("," arg)*] ")"
//   arg       := IDENT "=" expr | expr
//   expr      := call | IDENT | STRING | NUMBER

/// The keyword that opens a program.
pub open spec fn kw_pipeline() -> Seq<char> {
    seq!['p', 'i', 'p', 'e', 'l', 'i', 'n', 'e']
}

/// The keyword of a binding.
pub open spec fn kw_let() -> Seq<char> {
    seq!['l', 'e', 't']
}

/// The keyword of a loop.
pub open spec fn kw_for() -> Seq<char> {
    seq!['f', 'o', 'r']
}

/// The keyword between a loop's variable and what it walks.
pub open spec fn kw_in() -> Seq<char> {
    seq!['i', 'n']
}

/// Token `i` is the punctuation `x`.
pub open spec fn tok_at(t: Seq<TokView>, i: int, x: Sym) -> bool {
    0 <= i < t.len() && t[i] == TokView::Sym(x)
}

/// Token `i` is the identifier `w`.
pub open spec fn word_at(t: Seq<TokView>, i: int, w: Seq<char>) -> bool {
    0 <= i < t.len() && t[i] == TokView::Ident(w)
}

/// An expression at token `i`: a string, a number, a name, or a call.
pub open spec fn p_expr(t: Seq<TokView>, i: int) -> Option<(AstView, int)>
    decreases t.len() - i, 0int,
{
    if i < 0 || i >= t.len() {
        None
    } else {
        match t[i] {
            TokView::Ident(name) => if tok_at(t, i + 1, Sym::LParen) {
                p_call_rest(t, name, i + 2)
            } else {
                Some((AstView::Ident(name), i + 1))
            },
            TokView::Str(x) => Some((AstView::Str(x), i + 1)),
            TokView::Num(v) => Some((AstView::Number(v), i + 1)),
            TokView::Sym(_) => None,
        }
    }
}

/// A call argument at token `i`, named (`name = expr`) or not.
pub open spec fn p_arg(t: Seq<TokView>, i: int) -> Option<((Option<Seq<char>>, AstView), int)>
    decreases t.len() - i, 1int,
{
    if i < 0 || i >= t.len() {
        None
    } else {
        match t[i] {
            TokView::Ident(name) => if tok_at(t, i + 1, Sym::Assign) {
                match p_expr(t, i + 2) {
                    Some((e, j)) => Some(((Some(name), e), j)),
                    None => None,
                }
            } else {
                match p_expr(t, i) {
                    Some((e, j)) => Some(((None, e), j)),
                    None => None,
                }
            },
            _ => match p_expr(t, i) {
                Some((e, j)) => Some(((None, e), j)),
                None => None,
            },
        }
    }
}

/// The rest of an argument list, after `acc`, up to and including `)`.
pub open spec fn p_args(t: Seq<TokView>, i: int, acc: Seq<(Option<Seq<char>>, AstView)>) -> Option<
    (Seq<(Option<Seq<char>>, AstView)>, int),
>
    decreases t.len() - i, 2int,
{
    if i < 0 || i > t.len() {
        None
    } else {
        match p_arg(t, i) {
            Some((a, j)) => if i < j && tok_at(t, j, Sym::Comma) {
                p_args(t, j + 1, acc.push(a))
            } else {
                Some((acc.push(a), j))
            },
            None => None,
        }
    }
}

/// A call whose name and `(` are already read.
pub open spec fn p_call_rest(t: Seq<TokView>, name: Seq<char>, i: int) -> Option<(AstView, int)>
    decreases t.len() - i, 3int,
{
    if i < 0 || i > t.len() {
        None
    } else if tok_at(t, i, Sym::RParen) {
        Some((AstView::Call { name, args: Seq::empty() }, i + 1))
    } else {
        match p_args(t, i, Seq::empty()) {
            Some((args, j)) => if tok_at(t, j, Sym::RParen) {
                Some((AstView::Call { name, args }, j + 1))
            } else {
                None
            },
            None => None,
        }
    }
}

/// Further `-> call` links of a chain.
pub open spec fn p_chain(t: Seq<TokView>, i: int, acc: Seq<AstView>) -> Option<(Seq<AstView>, int)>
    decreases t.len() - i, 4int,
{
    if i < 0 || i > t.len() {
        None
    } else if tok_at(t, i, Sym::Arrow) {
        if i + 1 < t.len() && tok_at(t, i + 2, Sym::LParen) {
            match t[i + 1] {
                TokView::Ident(name) => match p_call_rest(t, name, i + 3) {
                    Some((c, j)) => if i < j {
                        p_chain(t, j, acc.push(c))
                    } else {
                        None
                    },
                    None => None,
                },
                _ => None,
            }
        } else {
            None
        }
    } else {
        Some((acc, i))
    }
}

/// A statement at token `i`: `let`, `for`, or a call chain.
pub open spec fn p_stmt(t: Seq<TokView>, i: int) -> Option<(AstView, int)>
    decreases t.len() - i, 5int,
{
    if i < 0 || i + 1 >= t.len() {
        None
    } else {
        match t[i] {
            TokView::Ident(w) => match t[i + 1] {
                TokView::Ident(x) => if w == kw_let() {
                    if tok_at(t, i + 2, Sym::Assign) {
                        match p_expr(t, i + 3) {
                            Some((e, j)) => Some((AstView::Let { name: x, value: Box::new(e) }, j)),
                            None => None,
                        }
                    } else {
                        None
                    }
                } else if w == kw_for() {
                    if word_at(t, i + 2, kw_in()) {
                        match p_expr(t, i + 3) {
                            Some((e, j)) => if i < j && tok_at(t, j, Sym::LBrace) {
                                match p_block(t, j + 1, Seq::empty()) {
                                    Some((body, k)) => Some(
                                        (AstView::For { var: x, iterable: Box::new(e), body }, k),
                                    ),
                                    None => None,
                                }
                            } else {
                                None
                            },
                            None => None,
                        }
                    } else {
                        None
                    }
                } else {
                    None
                },
                TokView::Sym(Sym::LParen) => match p_call_rest(t, w, i + 2) {
                    Some((c, j)) => if i < j {
                        match p_chain(t, j, seq![c]) {
                            Some((calls, k)) => Some(
                                (
                                    if calls.len() == 1 {
                                        calls[0]
                                    } else {
                                        AstView::Pipe { nodes: calls }
                                    },
                                    k,
                                ),
                            ),
                            None => None,
                        }
                    } else {
                        None
                    },
                    None => None,
                },
                _ => None,
            },
            _ => None,
        }
    }
}

/// Statements up to and including the closing `}`.
pub open spec fn p_block(t: Seq<TokView>, i: int, acc: Seq<AstView>) -> Option<(Seq<AstView>, int)>
    decreases t.len() - i, 6int,
{
    if i < 0 || i >= t.len() {
        None
    } else if tok_at(t, i, Sym::RBrace) {
        Some((acc, i + 1))
    } else {
        match p_stmt(t, i) {
            Some((st, j)) => if i < j <= t.len() {
                p_block(t, j, acc.push(st))
            } else {
                None
            },
            None => None,
        }
    }
}

/// A whole token sequence read as one pipeline.
pub open spec fn p_pipeline(t: Seq<TokView>) -> Option<AstView> {
    if word_at(t, 0, kw_pipeline()) && t.len() >= 3 && tok_at(t, 2, Sym::LBrace) {
        match t[1] {
            TokView::Str(name) => match p_block(t, 3, Seq::empty()) {
                Some((body, k)) => if k == t.len() {
                    Some(AstView::Pipeline { name, body })
                } else {
                    None
                },
                None => None,
            },
            _ => None,
        }
    } else {
        None
    }
}

/// What FlowLang source means: its pipeline, or why it has none.
pub open spec fn spec_parse(s: Seq<char>) -> Result<AstView, ParseError> {
    match lex(s) {
        Ok(t) => match p_pipeline(t) {
            Some(a) => Ok(a),
            None => Err(ParseError::Syntax),
        },
        Err(e) => Err(e),
    }
}

} // verus!

verus! {

proof fn lemma_ast_views_push(s: Seq<ASTNode>, x: ASTNode)
    ensures
        ast_views(s.push(x)) == ast_views(s).push(ast_view(x)),
{
    assert(s.push(x).drop_last() =~= s);
}

proof fn lemma_arg_views_push(s: Seq<(Option<String>, ASTNode)>, x: (Option<String>, ASTNode))
    ensures
        arg_views(s.push(x)) == arg_views(s).push((opt_view(x.0), ast_view(x.1))),
{
    assert(s.push(x).drop_last() =~= s);
}

pub(crate) proof fn lemma_ast_views_index(s: Seq<ASTNode>)
    ensures
        ast_views(s).len() == s.len(),
        forall|k: int| 0 <= k < s.len() ==> #[trigger] ast_views(s)[k] == ast_view(s[k]),
    decreases s.len(),
{
    if s.len() > 0 {
        lemma_ast_views_index(s.drop_last());
    }
}

fn sym_at(t: &Vec<Token>, i: usize, x: Sym) -> (r: bool)
    ensures
        r == tok_at(tok_views(t@), i as int, x),
        r ==> i < t.len(),
{
    if i < t.len() {
        match &t[i] {
            Token::Sym(y) => *y == x,
            _ => false,
        }
    } else {
        false
    }
}

/// Whether `s` is the word `w`.
fn is_word(s: &String, w: &str) -> (r: bool)
    ensures
        r == (s@ == w@),
{
    *s == w.to_owned()
}

fn is_let(s: &String) -> (r: bool)
    ensures
        r == (s@ == kw_let()),
{
    proof {
        reveal_strlit("let");
        assert("let"@ =~= kw_let());
    }
    is_word(s, "let")
}

fn is_for(s: &String) -> (r: bool)
    ensures
        r == (s@ == kw_for()),
{
    proof {
        reveal_strlit("for");
        assert("for"@ =~= kw_for());
    }
    is_word(s, "for")
}

fn in_at(t: &Vec<Token>, i: usize) -> (r: bool)
    ensures
        r == word_at(tok_views(t@), i as int, kw_in()),
{
    if i < t.len() {
        match &t[i] {
            Token::Ident(w) => {
                proof {
                    reveal_strlit("in");
                    assert("in"@ =~= kw_in());
                }
                is_word(w, "in")
            },
            _ => false,
        }
    } else {
        false
    }
}

fn pipeline_at(t: &Vec<Token>, i: usize) -> (r: bool)
    ensures
        r == word_at(tok_views(t@), i as int, kw_pipeline()),
{
    if i < t.len() {
        match &t[i] {
            Token::Ident(w) => {
                proof {
                    reveal_strlit("pipeline");
                    assert("pipeline"@ =~= kw_pipeline());
                }
                is_word(w, "pipeline")
            },
            _ => false,
        }
    } else {
        false
    }
}

fn parse_expr(t: &Vec<Token>, i: usize) -> (r: Option<(ASTNode, usize)>)
    ensures
        match r {
            Some((n, j)) => p_expr(tok_views(t@), i as int) == Some((ast_view(n), j as int)),
            None => p_expr(tok_views(t@), i as int) is None,
        },
    decreases t@.len() - i, 0int,
{
    if i >= t.len() {
        return None;
    }
    match &t[i] {
        Token::Ident(name) => {
            if sym_at(t, i + 1, Sym::LParen) {
                parse_call_rest(t, name.clone(), i + 2)
            } else {
                Some((ASTNode::Ident(name.clone()), i + 1))
            }
        },
        Token::Str(x) => Some((ASTNode::String(x.clone()), i + 1)),
        Token::Num(v) => Some((ASTNode::Number(*v), i + 1)),
        Token::Sym(_) => None,
    }
}

fn parse_arg(t: &Vec<Token>, i: usize) -> (r: Option<((Option<String>, ASTNode), usize)>)
    ensures
        match r {
            Some((a, j)) => p_arg(tok_views(t@), i as int) == Some(((opt_view(a.0), ast_view(a.1)), j as int)),
            None => p_arg(tok_views(t@), i as int) is None,
        },
    decreases t@.len() - i, 1int,
{
    if i >= t.len() {
        return None;
    }
    match &t[i] {
        Token::Ident(name) => {
            if sym_at(t, i + 1, Sym::Assign) {
                match parse_expr(t, i + 2) {
                    Some((e, j)) => Some(((Some(name.clone()), e), j)),
                    None => None,
                }
            } else {
                match parse_expr(t, i) {
                    Some((e, j)) => Some(((None, e), j)),
                    None => None,
                }
            }
        },
        _ => match parse_expr(t, i) {
            Some((e, j)) => Some(((None, e), j)),
            None => None,
        },
    }
}

fn parse_args(t: &Vec<Token>, i: usize, acc: Vec<(Option<String>, ASTNode)>) -> (r: Option<
    (Vec<(Option<String>, ASTNode)>, usize),
>)
    requires
        i <= t@.len(),
    ensures
        match r {
            Some((v, j)) => p_args(tok_views(t@), i as int, arg_views(acc@)) == Some((arg_views(v@), j as int)),
            None => p_args(tok_views(t@), i as int, arg_views(acc@)) is None,
        },
    decreases t@.len() - i, 2int,
{
    match parse_arg(t, i) {
        Some((a, j)) => {
            let mut acc = acc;
            let ghost old = acc@;
            proof {
                lemma_arg_views_push(old, a);
            }
            acc.push(a);
            if i < j && sym_at(t, j, Sym::Comma) {
                parse_args(t, j + 1, acc)
            } else {
                Some((acc, j))
            }
        },
        None => None,
    }
}

fn parse_call_rest(t: &Vec<Token>, name: String, i: usize) -> (r: Option<(ASTNode, usize)>)
    requires
        i <= t@.len(),
    ensures
        match r {
            Some((n, j)) => p_call_rest(tok_views(t@), name@, i as int) == Some((ast_view(n), j as int)),
            None => p_call_rest(tok_views(t@), name@, i as int) is None,
        },
    decreases t@.len() - i, 3int,
{
    if sym_at(t, i, Sym::RParen) {
        let args: Vec<(Option<String>, ASTNode)> = Vec::new();
        proof {
            assert(arg_views(args@) =~= Seq::<(Option<Seq<char>>, AstView)>::empty());
        }
        return Some((ASTNode::Call { name, args }, i + 1));
    }
    let empty: Vec<(Option<String>, ASTNode)> = Vec::new();
    proof {
        assert(arg_views(empty@) =~= Seq::<(Option<Seq<char>>, AstView)>::empty());
    }
    match parse_args(t, i, empty) {
        Some((args, j)) => {
            if sym_at(t, j, Sym::RParen) {
                Some((ASTNode::Call { name, args }, j + 1))
            } else {
                None
            }
        },
        None => None,
    }
}

fn parse_chain(t: &Vec<Token>, i: usize, acc: Vec<ASTNode>) -> (r: Option<(Vec<ASTNode>, usize)>)
    requires
        i <= t@.len(),
    ensures
        match r {
            Some((v, j)) => p_chain(tok_views(t@), i as int, ast_views(acc@)) == Some((ast_views(v@), j as int)),
            None => p_chain(tok_views(t@), i as int, ast_views(acc@)) is None,
        },
    decreases t@.len() - i, 4int,
{
    if sym_at(t, i, Sym::Arrow) {
        if i + 1 < t.len() && sym_at(t, i + 2, Sym::LParen) {
            match &t[i + 1] {
                Token::Ident(name) => match parse_call_rest(t, name.clone(), i + 3) {
                    Some((c, j)) => {
                        if i < j {
                            let mut acc = acc;
                            let ghost old = acc@;
                            proof {
                                lemma_ast_views_push(old, c);
                            }
                            acc.push(c);
                            parse_chain(t, j, acc)
                        } else {
                            None
                        }
                    },
                    None => None,
                },
                _ => None,
            }
        } else {
            None
        }
    } else {
        Some((acc, i))
    }
}

fn parse_stmt(t: &Vec<Token>, i: usize) -> (r: Option<(ASTNode, usize)>)
    ensures
        match r {
            Some((n, j)) => p_stmt(tok_views(t@), i as int) == Some((ast_view(n), j as int)),
            None => p_stmt(tok_views(t@), i as int) is None,
        },
    decreases t@.len() - i, 5int,
{
    if i >= t.len() || i + 1 >= t.len() {
        return None;
    }
    let w = match &t[i] {
        Token::Ident(w) => w,
        _ => {
            return None;
        },
    };
    match &t[i + 1] {
        Token::Ident(x) => {
            if is_let(w) {
                if sym_at(t, i + 2, Sym::Assign) {
                    match parse_expr(t, i + 3) {
                        Some((e, j)) => Some((ASTNode::Let { name: x.clone(), value: Box::new(e) }, j)),
                        None => None,
                    }
                } else {
                    None
                }
            } else if is_for(w) {
                if in_at(t, i + 2) {
                    match parse_expr(t, i + 3) {
                        Some((e, j)) => {
                            if i < j && sym_at(t, j, Sym::LBrace) {
                                let empty: Vec<ASTNode> = Vec::new();
                                proof {
                                    assert(ast_views(empty@) =~= Seq::<AstView>::empty());
                                }
                                match parse_block(t, j + 1, empty) {
                                    Some((body, k)) => Some(
                                        (ASTNode::For { var: x.clone(), iterable: Box::new(e), body }, k),
                                    ),
                                    None => None,
                                }
                            } else {
                                None
                            }
                        },
                        None => None,
                    }
                } else {
                    None
                }
            } else {
                None
            }
        },
        Token::Sym(Sym::LParen) => match parse_call_rest(t, w.clone(), i + 2) {
            Some((c, j)) => {
                if i < j {
                    let mut first: Vec<ASTNode> = Vec::new();
                    let ghost e0 = first@;
                    proof {
                        lemma_ast_views_push(e0, c);
                        assert(ast_views(e0) =~= Seq::<AstView>::empty());
                    }
                    first.push(c);
                    proof {
                        assert(ast_views(first@) =~= seq![ast_view(c)]);
                    }
                    match parse_chain(t, j, first) {
                        Some((calls, k)) => {
                            proof {
                                lemma_ast_views_index(calls@);
                            }
                            if calls.len() == 1 {
                                let mut calls = calls;
                                let only = calls.remove(0);
                                Some((only, k))
                            } else {
                                Some((ASTNode::Pipe { nodes: calls }, k))
                            }
                        },
                        None => None,
                    }
                } else {
                    None
                }
            },
            None => None,
        },
        _ => None,
    }
}

fn parse_block(t: &Vec<Token>, i: usize, acc: Vec<ASTNode>) -> (r: Option<(Vec<ASTNode>, usize)>)
    requires
        i <= t@.len(),
    ensures
        match r {
            Some((v, j)) => p_block(tok_views(t@), i as int, ast_views(acc@)) == Some((ast_views(v@), j as int)),
            None => p_block(tok_views(t@), i as int, ast_views(acc@)) is None,
        },
    decreases t@.len() - i, 6int,
{
    if i >= t.len() {
        return None;
    }
    if sym_at(t, i, Sym::RBrace) {
        return Some((acc, i + 1));
    }
    match parse_stmt(t, i) {
        Some((st, j)) => {
            if i < j && j <= t.len() {
                let mut acc = acc;
                let ghost old = acc@;
                proof {
                    lemma_ast_views_push(old, st);
                }
                acc.push(st);
                parse_block(t, j, acc)
            } else {
                None
            }
        },
        None => None,
    }
}

/// Reads FlowLang source: one `pipeline "name" { ... }` block.
pub fn parse(input: &str) -> (r: Result<ASTNode, ParseError>)
    ensures
        match r {
            Ok(a) => spec_parse(input@) == Ok::<AstView, ParseError>(ast_view(a)),
            Err(e) => spec_parse(input@) == Err::<AstView, ParseError>(e),
        },
{
    let t = match FlowLangParser::tokenize(input) {
        Ok(t) => t,
        Err(e) => {
            return Err(e);
        },
    };
    if pipeline_at(&t, 0) && t.len() >= 3 && sym_at(&t, 2, Sym::LBrace) {
        match &t[1] {
            Token::Str(name) => {
                let empty: Vec<ASTNode> = Vec::new();
                proof {
                    assert(ast_views(empty@) =~= Seq::<AstView>::empty());
                }
                match parse_block(&t, 3, empty) {
                    Some((body, k)) => {
                        if k == t.len() {
                            Ok(ASTNode::Pipeline { name: name.clone(), body })
                        } else {
                            Err(ParseError::Syntax)
                        }
                    },
                    None => Err(ParseError::Syntax),
                }
            },
            _ => Err(ParseError::Syntax),
        }
    } else {
        Err(ParseError::Syntax)
    }
}


/// An ASCII letter, a decimal digit or `_`.
pub open spec fn is_word_char(c: char) -> bool {
    ('a' <= c && c <= 'z') || ('A' <= c && c <= 'Z') || ('0' <= c && c <= '9') || c == '_'
}

/// Identifiers are made of ASCII letters, digits and `_`, and begin with a
/// letter or `_`.
pub proof fn lemma_identifier_characters(c: char)
    ensures
        is_ident_char(c) <==> is_word_char(c),
        is_ident_start(c) <==> (is_word_char(c) && !('0' <= c && c <= '9')),
{
}

proof fn lemma_ident_end_word(w: Seq<char>, i: int)
    requires
        0 <= i <= w.len(),
        forall|k: int| 0 <= k < w.len() ==> is_word_char(#[trigger] w[k]),
    ensures
        ident_end(w, i) == w.len(),
    decreases w.len() - i,
{
    if i < w.len() {
        assert(is_word_char(w[i]));
        lemma_ident_end_word(w, i + 1);
    }
}

/// A word of ASCII letters, digits and `_` that does not begin with a digit
/// is read as one identifier token: `strip_exif` is one name, not two.
pub proof fn lemma_word_is_one_identifier(w: Seq<char>)
    requires
        w.len() > 0,
        forall|k: int| 0 <= k < w.len() ==> is_word_char(#[trigger] w[k]),
        !('0' <= w[0] && w[0] <= '9'),
    ensures
        lex(w) == Ok::<Seq<TokView>, ParseError>(seq![TokView::Ident(w)]),
{
    assert(is_word_char(w[0]));
    lemma_ident_end_word(w, 1);
    assert(w.subrange(0, w.len() as int) =~= w);
    assert(lex_from(w, w.len() as int) == Ok::<Seq<TokView>, ParseError>(Seq::empty()));
    assert(seq![TokView::Ident(w)] + Seq::<TokView>::empty() =~= seq![TokView::Ident(w)]);
}

} // verus!
