//! S-expression parser: recursive descent over the scanner's token stream,
//! building a generic, untyped tree of lists, identifiers and literals.
use crate::scanner;
use crate::scanner::Decimal;
use crate::scanner::ScannedToken;
use crate::scanner::ScannedTokenView;
use crate::scanner::Token;
use crate::scanner::TokenView;
use crate::scanner::LocView;
use vstd::prelude::*;

verus! {

use vstd::string::StrSliceExecFns;

broadcast use
    vstd::std_specs::vec::axiom_vec_decreases_to_view,
    vstd::seq::axiom_seq_index_decreases,
    vstd::seq::axiom_seq_subrange_decreases,
;

#[derive(Clone, Debug)]
pub enum Literal {
    Atom(String),
    Str(String),
    Integer(i64),
    Float(Decimal),
    Percent(Decimal),
}

pub ghost enum LiteralView {
    Atom(Seq<char>),
    Str(Seq<char>),
    Integer(i64),
    Float(Decimal),
    Percent(Decimal),
}

impl View for Literal {
    type V = LiteralView;

    open spec fn view(&self) -> LiteralView {
        match self {
            Literal::Atom(s) => LiteralView::Atom(s@),
            Literal::Str(s) => LiteralView::Str(s@),
            Literal::Integer(n) => LiteralView::Integer(*n),
            Literal::Float(d) => LiteralView::Float(*d),
            Literal::Percent(d) => LiteralView::Percent(*d),
        }
    }
}

/// The untyped parse tree: nothing of the domain, only syntactic shape.
#[derive(Debug)]
pub enum Sexp {
    List { terms: Vec<Sexp> },
    Ident { name: String },
    Literal { value: Literal },
}

pub ghost enum SexpView {
    List(Seq<SexpView>),
    Ident(Seq<char>),
    Literal(LiteralView),
}

pub open spec fn view_sexp(s: Sexp) -> SexpView
    decreases s,
{
    match s {
        Sexp::List { terms } => SexpView::List(view_sexps(terms@)),
        Sexp::Ident { name } => SexpView::Ident(name@),
        Sexp::Literal { value } => SexpView::Literal(value@),
    }
}

pub open spec fn view_sexps(s: Seq<Sexp>) -> Seq<SexpView>
    decreases s,
{
    if s.len() == 0 {
        Seq::empty()
    } else {
        seq![view_sexp(s[0])] + view_sexps(s.subrange(1, s.len() as int))
    }
}

pub broadcast proof fn lemma_view_sexps(s: Seq<Sexp>)
    ensures
        (#[trigger] view_sexps(s)).len() == s.len(),
        forall|i: int| 0 <= i < s.len() ==> view_sexps(s)[i] == view_sexp(s[i]),
    decreases s,
{
    if s.len() > 0 {
        lemma_view_sexps(s.subrange(1, s.len() as int));
    }
}

impl View for Sexp {
    type V = SexpView;

    open spec fn view(&self) -> SexpView {
        view_sexp(*self)
    }
}

impl DeepView for Sexp {
    type V = SexpView;

    open spec fn deep_view(&self) -> SexpView {
        view_sexp(*self)
    }
}

#[derive(Clone, Copy, Debug)]
pub enum ErrorKind {
    MatchExhausted,
    ConsumeFailed { expected: &'static str },
}

pub ghost enum ErrorKindView {
    MatchExhausted,
    ConsumeFailed { expected: Seq<char> },
}

impl View for ErrorKind {
    type V = ErrorKindView;

    open spec fn view(&self) -> ErrorKindView {
        match self {
            ErrorKind::MatchExhausted => ErrorKindView::MatchExhausted,
            ErrorKind::ConsumeFailed { expected } => ErrorKindView::ConsumeFailed {
                expected: expected@,
            },
        }
    }
}

/// A parse fault, carrying the token at the point of failure.
#[derive(Debug)]
pub struct ParseError {
    pub kind: ErrorKind,
    pub token: ScannedToken,
}

pub ghost struct ParseErrorView {
    pub kind: ErrorKindView,
    pub token: ScannedTokenView,
}

impl View for ParseError {
    type V = ParseErrorView;

    open spec fn view(&self) -> ParseErrorView {
        ParseErrorView { kind: self.kind@, token: self.token@ }
    }
}

// ---------------------------------------------------------------------------
// Specification of the parse
// ---------------------------------------------------------------------------

/// A token stream as the scanner hands it out: nonempty, ending in `EOF`.
pub open spec fn wf_tokens(toks: Seq<ScannedTokenView>) -> bool {
    toks.len() > 0 && toks[toks.len() - 1].tok is EOF
}

/// Stands in for a current token where a malformed stream has none; a
/// well-formed stream never reaches it.
pub open spec fn synth_eof() -> ScannedTokenView {
    ScannedTokenView { tok: TokenView::EOF, loc: LocView { line: 0, col: 0 } }
}

/// One term parsed at `i`: the tree and the index just past it, or the fault.
pub open spec fn parse_term_spec(toks: Seq<ScannedTokenView>, i: int) -> Result<
    (SexpView, int),
    ParseErrorView,
>
    decreases toks.len() - i, 0int,
{
    if i < 0 || i >= toks.len() {
        Err(ParseErrorView { kind: ErrorKindView::MatchExhausted, token: synth_eof() })
    } else {
        let t = toks[i];
        match t.tok {
            TokenView::Sym(c) => {
                if c == '(' {
                    match parse_list_spec(toks, i + 1) {
                        Ok((terms, j)) => Ok((SexpView::List(terms), j)),
                        Err(e) => Err(e),
                    }
                } else {
                    Err(ParseErrorView { kind: ErrorKindView::MatchExhausted, token: t })
                }
            },
            TokenView::Ident(name) => Ok((SexpView::Ident(name), i + 1)),
            TokenView::Atom(name) => Ok((SexpView::Literal(LiteralView::Atom(name)), i + 1)),
            TokenView::StringLit(text) => Ok((SexpView::Literal(LiteralView::Str(text)), i + 1)),
            TokenView::Integer(n) => Ok((SexpView::Literal(LiteralView::Integer(n)), i + 1)),
            TokenView::Number(d) => Ok((SexpView::Literal(LiteralView::Float(d)), i + 1)),
            TokenView::Percent(d) => Ok((SexpView::Literal(LiteralView::Percent(d)), i + 1)),
            TokenView::EOF => Err(ParseErrorView { kind: ErrorKindView::MatchExhausted, token: t }),
        }
    }
}

/// The terms of a list body parsed from `i` up to a closing paren, which is
/// consumed; reaching `EOF` instead is the missing-right-paren fault.
pub open spec fn parse_list_spec(toks: Seq<ScannedTokenView>, i: int) -> Result<
    (Seq<SexpView>, int),
    ParseErrorView,
>
    decreases toks.len() - i, 1int,
{
    if i < 0 || i >= toks.len() {
        Err(ParseErrorView { kind: ErrorKindView::ConsumeFailed { expected: "right paren"@ }, token: synth_eof() })
    } else {
        let t = toks[i];
        if t.tok == TokenView::Sym(')') {
            Ok((Seq::empty(), i + 1))
        } else if t.tok is EOF {
            Err(ParseErrorView { kind: ErrorKindView::ConsumeFailed { expected: "right paren"@ }, token: t })
        } else {
            match parse_term_spec(toks, i) {
                Err(e) => Err(e),
                Ok((s, j)) => {
                    let j2 = scanner::clamp_step(i, j, toks.len() as int);
                    match parse_list_spec(toks, j2) {
                        Err(e) => Err(e),
                        Ok((rest, k)) => Ok((seq![s] + rest, k)),
                    }
                },
            }
        }
    }
}

/// What parsing a whole token stream yields: its first term (trailing tokens
/// are left unread), or the first fault.
pub open spec fn parse_tokens_result(toks: Seq<ScannedTokenView>) -> Result<SexpView, ParseErrorView> {
    match parse_term_spec(toks, 0) {
        Ok((s, j)) => Ok(s),
        Err(e) => Err(e),
    }
}

// ---------------------------------------------------------------------------
// The executable parser
// ---------------------------------------------------------------------------

/// An identical copy of a token, down to its text.
fn dup_token(t: &ScannedToken) -> (r: ScannedToken)
    ensures
        r@ == t@,
{
    let tok = match &t.tok {
        Token::Ident(s) => Token::Ident(s.clone()),
        Token::Atom(s) => Token::Atom(s.clone()),
        Token::StringLit(s) => Token::StringLit(s.clone()),
        Token::Sym(c) => Token::Sym(*c),
        Token::Integer(n) => Token::Integer(*n),
        Token::Number(d) => Token::Number(*d),
        Token::Percent(d) => Token::Percent(*d),
        Token::EOF => Token::EOF,
    };
    ScannedToken { tok, loc: t.loc }
}

/// Terms already collected, in front of whatever the rest of the list gives.
pub open spec fn cons_list(
    acc: Seq<SexpView>,
    r: Result<(Seq<SexpView>, int), ParseErrorView>,
) -> Result<(Seq<SexpView>, int), ParseErrorView> {
    match r {
        Ok((ts, k)) => Ok((acc + ts, k)),
        Err(e) => Err(e),
    }
}

proof fn lemma_cons_list_assoc(
    acc: Seq<SexpView>,
    s: SexpView,
    toks: Seq<ScannedTokenView>,
    j: int,
)
    ensures
        cons_list(
            acc,
            match parse_list_spec(toks, j) {
                Ok((rest, k)) => Ok::<_, ParseErrorView>((seq![s] + rest, k)),
                Err(e) => Err(e),
            },
        ) == cons_list(acc + seq![s], parse_list_spec(toks, j)),
{
    match parse_list_spec(toks, j) {
        Ok((rest, k)) => {
            assert(acc + (seq![s] + rest) =~= (acc + seq![s]) + rest);
        },
        Err(_) => {},
    }
}

/// Recursive-descent parser over a scanned token stream, one token of
/// lookahead, no backtracking.
pub struct Parser {
    tokens: Vec<ScannedToken>,
    index: usize,
}

impl Parser {
    /// The views of the tokens this parser walks.
    pub closed spec fn toks(&self) -> Seq<ScannedTokenView> {
        self.tokens.deep_view()
    }

    /// The cursor: index of the next token to be read.
    pub closed spec fn at(&self) -> int {
        self.index as int
    }

    pub fn new(tokens: Vec<ScannedToken>) -> (p: Parser)
        ensures
            p.toks() == tokens.deep_view(),
            p.at() == 0,
    {
        Parser { tokens, index: 0 }
    }

    spec fn wf(&self) -> bool {
        wf_tokens(self.toks()) && self.at() < self.toks().len()
    }

    fn at_rparen(&self) -> (b: bool)
        requires
            self.at() < self.toks().len(),
        ensures
            b == (self.toks()[self.at()].tok == TokenView::Sym(')')),
    {
        match &self.tokens[self.index].tok {
            Token::Sym(c) => *c == ')',
            _ => false,
        }
    }

    fn at_eof(&self) -> (b: bool)
        requires
            self.at() < self.toks().len(),
        ensures
            b == (self.toks()[self.at()].tok is EOF),
    {
        match &self.tokens[self.index].tok {
            Token::EOF => true,
            _ => false,
        }
    }

    /// Parse one term at the cursor.
    fn term(&mut self) -> (r: Result<Sexp, ParseError>)
        requires
            old(self).wf(),
        ensures
            final(self).toks() == old(self).toks(),
            match r {
                Ok(s) => parse_term_spec(old(self).toks(), old(self).at()) == Ok::<
                    _,
                    ParseErrorView,
                >((s@, final(self).at())) && old(self).at() < final(self).at() < final(self).toks().len(),
                Err(e) => parse_term_spec(old(self).toks(), old(self).at()) == Err::<
                    (SexpView, int),
                    _,
                >(e@),
            },
        decreases self.toks().len() - self.at(), 0int,
    {
        let ghost toks = self.toks();
        let ghost i0 = self.at();
        let n = self.tokens.len();
        proof {
            assert(toks[toks.len() - 1].tok is EOF);
            assert(toks.len() == n);
        }
        let t = dup_token(&self.tokens[self.index]);
        match t.tok {
            Token::Sym(c) => {
                if c == '(' {
                    self.index = self.index + 1;
                    match self.list() {
                        Ok(terms) => {
                            proof {
                                lemma_view_sexps(terms@);
                                assert(view_sexps(terms@) =~= terms.deep_view());
                            }
                            Ok(Sexp::List { terms })
                        },
                        Err(e) => Err(e),
                    }
                } else {
                    Err(ParseError { kind: ErrorKind::MatchExhausted, token: t })
                }
            },
            Token::Ident(name) => {
                self.index = self.index + 1;
                Ok(Sexp::Ident { name })
            },
            Token::Atom(name) => {
                self.index = self.index + 1;
                Ok(Sexp::Literal { value: Literal::Atom(name) })
            },
            Token::StringLit(text) => {
                self.index = self.index + 1;
                Ok(Sexp::Literal { value: Literal::Str(text) })
            },
            Token::Integer(n) => {
                self.index = self.index + 1;
                Ok(Sexp::Literal { value: Literal::Integer(n) })
            },
            Token::Number(d) => {
                self.index = self.index + 1;
                Ok(Sexp::Literal { value: Literal::Float(d) })
            },
            Token::Percent(d) => {
                self.index = self.index + 1;
                Ok(Sexp::Literal { value: Literal::Percent(d) })
            },
            Token::EOF => Err(ParseError { kind: ErrorKind::MatchExhausted, token: t }),
        }
    }

    /// Parse list terms up to and through the closing paren.
    fn list(&mut self) -> (r: Result<Vec<Sexp>, ParseError>)
        requires
            old(self).wf(),
        ensures
            final(self).toks() == old(self).toks(),
            match r {
                Ok(v) => parse_list_spec(old(self).toks(), old(self).at()) == Ok::<
                    _,
                    ParseErrorView,
                >((v.deep_view(), final(self).at())) && old(self).at() < final(self).at() < final(self).toks().len(),
                Err(e) => parse_list_spec(old(self).toks(), old(self).at()) == Err::<
                    (Seq<SexpView>, int),
                    _,
                >(e@),
            },
        decreases self.toks().len() - self.at(), 1int,
    {
        let ghost toks = self.toks();
        let ghost i0 = self.at();
        let n = self.tokens.len();
        proof {
            assert(toks.len() == n);
        }
        let mut terms: Vec<Sexp> = Vec::new();
        loop
            invariant
                old(self).toks() == toks,
                old(self).at() == i0,
                self.toks() == toks,
                toks.len() == n,
                wf_tokens(toks),
                i0 <= self.at() < toks.len(),
                cons_list(terms.deep_view(), parse_list_spec(toks, self.at())) == parse_list_spec(
                    toks,
                    i0,
                ),
            decreases toks.len() - self.at(),
        {
            let ghost ts0 = terms.deep_view();
            let ghost a0 = self.at();
            if self.at_rparen() {
                self.index = self.index + 1;
                proof {
                    assert(ts0 + Seq::<SexpView>::empty() =~= ts0);
                    assert(toks[toks.len() - 1].tok is EOF);
                }
                return Ok(terms);
            } else if self.at_eof() {
                let t = dup_token(&self.tokens[self.index]);
                return Err(ParseError { kind: ErrorKind::ConsumeFailed { expected: "right paren" }, token: t });
            } else {
                match self.term() {
                    Err(e) => {
                        return Err(e);
                    },
                    Ok(s) => {
                        proof {
                            assert(scanner::clamp_step(a0, self.at(), toks.len() as int) == self.at());
                            lemma_cons_list_assoc(ts0, s@, toks, self.at());
                        }
                        terms.push(s);
                        proof {
                            assert(terms.deep_view() =~= ts0 + seq![s@]);
                        }
                    },
                }
            }
        }
    }

    /// Parse the stream's first term; trailing tokens are left unread.
    pub fn parse(self) -> (r: Result<Sexp, ParseError>)
        requires
            wf_tokens(self.toks()),
            self.at() == 0,
        ensures
            match r {
                Ok(s) => parse_tokens_result(self.toks()) == Ok::<_, ParseErrorView>(s@),
                Err(e) => parse_tokens_result(self.toks()) == Err::<SexpView, _>(e@),
            },
    {
        let mut p = self;
        match p.term() {
            Ok(s) => Ok(s),
            Err(e) => Err(e),
        }
    }
}

/// What parsing a token stream yields, under the unified error type.
pub open spec fn parse_tokens_full(toks: Seq<ScannedTokenView>) -> Result<
    SexpView,
    crate::error::ErrorView,
> {
    match parse_tokens_result(toks) {
        Ok(s) => Ok(s),
        Err(e) => Err(crate::error::ErrorView::SexpParseError(e)),
    }
}

/// What parsing source text yields: scan, then parse, first fault wins.
pub open spec fn parse_result(source: Seq<char>) -> Result<SexpView, crate::error::ErrorView> {
    match scanner::scan_result(source) {
        Err(e) => Err(crate::error::ErrorView::ScanError(e)),
        Ok(toks) => parse_tokens_full(toks),
    }
}

/// Parse a scanned token stream into its first term.
pub fn parse_tokens(tokens: Vec<ScannedToken>) -> (r: Result<Sexp, crate::error::Error>)
    requires
        wf_tokens(tokens.deep_view()),
    ensures
        match r {
            Ok(s) => parse_tokens_full(tokens.deep_view()) == Ok::<_, crate::error::ErrorView>(s@),
            Err(e) => parse_tokens_full(tokens.deep_view()) == Err::<SexpView, _>(e@),
        },
{
    let ghost dv = tokens.deep_view();
    let p = Parser::new(tokens);
    proof {
        assert(p.toks() == dv);
    }
    match p.parse() {
        Ok(s) => Ok(s),
        Err(e) => Err(crate::error::Error::SexpParseError(e)),
    }
}

/// Scan and parse source text into an s-expression tree.
pub fn parse(source: &str) -> (r: Result<Sexp, crate::error::Error>)
    ensures
        match r {
            Ok(s) => parse_result(source@) == Ok::<_, crate::error::ErrorView>(s@),
            Err(e) => parse_result(source@) == Err::<SexpView, _>(e@),
        },
{
    match scanner::scan(source) {
        Err(e) => Err(crate::error::Error::ScanError(e)),
        Ok(tokens) => {
            proof {
                scanner::lemma_scan_wf(source@, 0, 0, 0);
            }
            parse_tokens(tokens)
        },
    }
}

// ---------------------------------------------------------------------------
// Printing
// ---------------------------------------------------------------------------

pub open spec fn print_literal_spec(l: LiteralView) -> Seq<char> {
    match l {
        LiteralView::Atom(n) => seq![':'] + n,
        LiteralView::Str(t) => seq!['"'] + t + seq!['"'],
        LiteralView::Integer(n) => scanner::int_text(n),
        LiteralView::Float(d) => scanner::float_text(d),
        LiteralView::Percent(d) => scanner::percent_text(d),
    }
}

/// The written form of a tree: terms of a list separated by single spaces.
pub open spec fn print_sexp_spec(v: SexpView) -> Seq<char>
    decreases v, 0int,
{
    match v {
        SexpView::List(terms) => seq!['('] + print_terms_spec(terms) + seq![')'],
        SexpView::Ident(n) => n,
        SexpView::Literal(l) => print_literal_spec(l),
    }
}

pub open spec fn print_terms_spec(terms: Seq<SexpView>) -> Seq<char>
    decreases terms, 1int,
{
    if terms.len() == 0 {
        Seq::empty()
    } else if terms.len() == 1 {
        print_sexp_spec(terms[0])
    } else {
        print_sexp_spec(terms[0]) + seq![' '] + print_terms_spec(
            terms.subrange(1, terms.len() as int),
        )
    }
}

fn push_digit(out: &mut Vec<char>, d: u64)
    requires
        d < 10,
    ensures
        final(out)@ == old(out)@ + seq![scanner::digit_char(d as int)],
{
    let c: char = if d == 0 {
        '0'
    } else if d == 1 {
        '1'
    } else if d == 2 {
        '2'
    } else if d == 3 {
        '3'
    } else if d == 4 {
        '4'
    } else if d == 5 {
        '5'
    } else if d == 6 {
        '6'
    } else if d == 7 {
        '7'
    } else if d == 8 {
        '8'
    } else {
        '9'
    };
    out.push(c);
    proof {
        assert(out@ =~= old(out)@ + seq![scanner::digit_char(d as int)]);
    }
}

fn push_digits(out: &mut Vec<char>, m: u64)
    ensures
        final(out)@ == old(out)@ + scanner::digits_text(m as nat),
    decreases m,
{
    if m < 10 {
        push_digit(out, m);
    } else {
        push_digits(out, m / 10);
        push_digit(out, m % 10);
        proof {
            assert(out@ =~= old(out)@ + scanner::digits_text(m as nat));
        }
    }
}

/// The magnitude of a mantissa as an unsigned value.
fn mag_u64(n: i64) -> (r: u64)
    ensures
        r as nat == scanner::mag_of(n),
{
    if n == i64::MIN {
        9223372036854775808u64
    } else if n < 0 {
        (-n) as u64
    } else {
        n as u64
    }
}

fn push_int(out: &mut Vec<char>, n: i64)
    ensures
        final(out)@ == old(out)@ + scanner::int_text(n),
{
    if n < 0 {
        out.push('-');
    }
    let ghost mid = out@;
    push_digits(out, mag_u64(n));
    proof {
        assert(out@ =~= old(out)@ + scanner::int_text(n));
    }
}

#[verifier::loop_isolation(false)]
#[verifier::rlimit(100)]
fn push_decimal(out: &mut Vec<char>, d: Decimal)
    ensures
        final(out)@ == old(out)@ + scanner::decimal_text(d),
{
    let m = mag_u64(d.mantissa);
    if d.exponent == 0 {
        push_int(out, d.mantissa);
        proof {
            assert(out@ =~= old(out)@ + scanner::decimal_text(d));
        }
        return ;
    }
    if d.mantissa < 0 {
        out.push('-');
    }
    let mut dv: Vec<char> = Vec::new();
    push_digits(&mut dv, m);
    let e = d.exponent as usize;
    let ghost ds = scanner::padded_digits(m as nat, d.exponent as nat + 1);
    proof {
        assert(scanner::digits_text(m as nat).len() >= 1);
    }
    let pad: usize = if dv.len() > e {
        0
    } else {
        e - dv.len() + 1
    };
    let mut pv: Vec<char> = Vec::new();
    let mut k: usize = 0;
    while k < pad
        invariant
            k <= pad,
            pv@ =~= scanner::zeros(k as nat),
        decreases pad - k,
    {
        pv.push('0');
        k = k + 1;
        proof {
            assert(pv@ =~= scanner::zeros(k as nat));
        }
    }
    let mut k2: usize = 0;
    while k2 < dv.len()
        invariant
            k2 <= dv@.len(),
            pv@ =~= scanner::zeros(pad as nat) + dv@.take(k2 as int),
        decreases dv@.len() - k2,
    {
        pv.push(dv[k2]);
        k2 = k2 + 1;
        proof {
            assert(pv@ =~= scanner::zeros(pad as nat) + dv@.take(k2 as int));
        }
    }
    proof {
        assert(dv@.take(dv@.len() as int) =~= dv@);
        assert(pv@ =~= ds);
    }
    let l = pv.len();
    proof {
        scanner::lemma_zeros_are_digits(pad as nat);
        assert(pv@.len() == pad + dv@.len());
        assert(l >= e + 1);
    }
    let mut k3: usize = 0;
    let ghost start = out@;
    while k3 < l - e
        invariant
            k3 <= l - e <= l,
            l == pv@.len(),
            pv@ == ds,
            out@ =~= start + pv@.take(k3 as int),
        decreases l - e - k3,
    {
        out.push(pv[k3]);
        k3 = k3 + 1;
        proof {
            assert(out@ =~= start + pv@.take(k3 as int));
        }
    }
    out.push('.');
    let mut k4: usize = l - e;
    let ghost mid = out@;
    while k4 < l
        invariant
            l - e <= k4 <= l,
            l == pv@.len(),
            pv@ == ds,
            out@ =~= mid + pv@.subrange((l - e) as int, k4 as int),
        decreases l - k4,
    {
        out.push(pv[k4]);
        k4 = k4 + 1;
        proof {
            assert(out@ =~= mid + pv@.subrange((l - e) as int, k4 as int));
        }
    }
    proof {
        assert(out@ =~= old(out)@ + scanner::decimal_text(d));
    }
}

/// Push the characters of a string.
fn push_str_chars(out: &mut Vec<char>, s: &str)
    ensures
        final(out)@ == old(out)@ + s@,
{
    let n = s.unicode_len();
    let mut i: usize = 0;
    while i < n
        invariant
            i <= n,
            n == s@.len(),
            out@ =~= old(out)@ + s@.take(i as int),
        decreases n - i,
    {
        out.push(s.get_char(i));
        i = i + 1;
        proof {
            assert(out@ =~= old(out)@ + s@.take(i as int));
        }
    }
    proof {
        assert(out@ =~= old(out)@ + s@);
    }
}

fn push_literal(out: &mut Vec<char>, l: &Literal)
    ensures
        final(out)@ == old(out)@ + print_literal_spec(l@),
{
    match l {
        Literal::Atom(n) => {
            out.push(':');
            push_str_chars(out, n.as_str());
            proof {
                assert(out@ =~= old(out)@ + print_literal_spec(l@));
            }
        },
        Literal::Str(t) => {
            out.push('"');
            push_str_chars(out, t.as_str());
            out.push('"');
            proof {
                assert(out@ =~= old(out)@ + print_literal_spec(l@));
            }
        },
        Literal::Integer(n) => {
            push_int(out, *n);
        },
        Literal::Float(d) => {
            push_decimal(out, *d);
            if d.exponent == 0 {
                out.push('.');
            }
            proof {
                assert(out@ =~= old(out)@ + print_literal_spec(l@));
            }
        },
        Literal::Percent(d) => {
            push_decimal(out, *d);
            out.push('%');
            proof {
                assert(out@ =~= old(out)@ + print_literal_spec(l@));
            }
        },
    }
}

#[verifier::loop_isolation(false)]
fn push_sexp(out: &mut Vec<char>, s: &Sexp)
    ensures
        final(out)@ == old(out)@ + print_sexp_spec(s@),
    decreases s,
{
    match s {
        Sexp::List { terms } => {
            out.push('(');
            let n = terms.len();
            let ghost vterms = view_sexps(terms@);
            let ghost mid = out@;
            let mut i: usize = 0;
            while i < n
                invariant
                    i <= n,
                    out@ =~= mid + print_prefix(vterms, i as int),
                decreases n - i,
            {
                if i > 0 {
                    out.push(' ');
                }
                push_sexp(out, &terms[i]);
                i = i + 1;
                proof {
                    lemma_view_sexps(terms@);
                    lemma_print_prefix_step(vterms, i as int);
                    assert(out@ =~= mid + print_prefix(vterms, i as int));
                }
            }
            out.push(')');
            proof {
                lemma_view_sexps(terms@);
                lemma_print_prefix_all(vterms);
                assert(s@ == SexpView::List(vterms));
                assert(out@ =~= old(out)@ + print_sexp_spec(s@));
            }
        },
        Sexp::Ident { name } => {
            push_str_chars(out, name.as_str());
        },
        Sexp::Literal { value } => {
            push_literal(out, value);
        },
    }
}

/// The first `i` terms printed, space separated.
pub open spec fn print_prefix(terms: Seq<SexpView>, i: int) -> Seq<char>
    decreases i,
{
    if i <= 0 {
        Seq::empty()
    } else if i == 1 {
        print_sexp_spec(terms[0])
    } else {
        print_prefix(terms, i - 1) + seq![' '] + print_sexp_spec(terms[i - 1])
    }
}

proof fn lemma_print_prefix_step(terms: Seq<SexpView>, i: int)
    requires
        1 <= i,
    ensures
        print_prefix(terms, i) == if i == 1 {
            print_sexp_spec(terms[0])
        } else {
            print_prefix(terms, i - 1) + seq![' '] + print_sexp_spec(terms[i - 1])
        },
{
}

/// Printing all terms one by one gives the separated form.
proof fn lemma_print_prefix_all(terms: Seq<SexpView>)
    ensures
        print_prefix(terms, terms.len() as int) == print_terms_spec(terms),
    decreases terms.len(),
{
    lemma_print_terms_alt(terms, terms.len() as int);
    assert(terms.take(terms.len() as int) =~= terms);
}

/// The prefix form agrees with the recursive tail form.
proof fn lemma_print_terms_alt(terms: Seq<SexpView>, i: int)
    requires
        0 <= i <= terms.len(),
    ensures
        print_prefix(terms, i) == print_terms_spec(terms.take(i)),
    decreases i,
{
    if i > 0 {
        lemma_print_terms_alt(terms, i - 1);
        lemma_print_terms_snoc(terms.take(i - 1), terms[i - 1]);
        assert(terms.take(i) =~= terms.take(i - 1) + seq![terms[i - 1]]);
    } else {
        assert(terms.take(0) =~= Seq::<SexpView>::empty());
    }
}

/// Appending one term to a printed run appends a space and its form.
proof fn lemma_print_terms_snoc(terms: Seq<SexpView>, t: SexpView)
    ensures
        print_terms_spec(terms + seq![t]) == if terms.len() == 0 {
            print_sexp_spec(t)
        } else {
            print_terms_spec(terms) + seq![' '] + print_sexp_spec(t)
        },
    decreases terms.len(),
{
    let w = terms + seq![t];
    if terms.len() == 0 {
        assert(w.len() == 1);
        assert(w[0] == t);
    } else {
        lemma_print_terms_snoc(terms.subrange(1, terms.len() as int), t);
        assert(w.subrange(1, w.len() as int) =~= terms.subrange(1, terms.len() as int) + seq![t]);
        if terms.len() == 1 {
            assert(print_terms_spec(terms) == print_sexp_spec(terms[0]));
            assert(w[0] == terms[0]);
            assert(print_terms_spec(w) == print_sexp_spec(w[0]) + seq![' ']
                + print_terms_spec(w.subrange(1, w.len() as int)));
        } else {
            assert(print_terms_spec(terms) + seq![' '] + print_sexp_spec(t) =~= print_sexp_spec(
                terms[0],
            ) + seq![' '] + (print_terms_spec(terms.subrange(1, terms.len() as int)) + seq![' ']
                + print_sexp_spec(t)));
        }
    }
}

impl Sexp {
    /// The tree's written form, rescannable and reparsable.
    pub fn to_text(&self) -> (r: Vec<char>)
        ensures
            r@ == print_sexp_spec(self@),
    {
        let mut out: Vec<char> = Vec::new();
        push_sexp(&mut out, self);
        proof {
            assert(out@ =~= print_sexp_spec(self@));
        }
        out
    }
}

/// A single-node tree the scanner itself could have produced: its printed
/// form scans back to the same token.
pub open spec fn printable_leaf(v: SexpView) -> bool {
    match v {
        SexpView::Ident(n) => scanner::valid_ident_text(n),
        SexpView::Literal(l) => match l {
            LiteralView::Atom(n) => scanner::valid_atom_text(n),
            LiteralView::Str(t) => scanner::valid_string_text(t),
            LiteralView::Integer(_) => true,
            LiteralView::Float(d) => d.exponent <= u32::MAX - 2,
            LiteralView::Percent(d) => d.exponent <= u32::MAX - 2,
        },
        SexpView::List(_) => false,
    }
}


// ---------------------------------------------------------------------------
// The print/parse round trip
// ---------------------------------------------------------------------------

/// A tree the scanner and parser themselves could have produced; its
/// printed form parses back to the identical tree.
pub open spec fn printable(v: SexpView) -> bool
    decreases v, 0int,
{
    match v {
        SexpView::List(ts) => printable_all(ts),
        _ => printable_leaf(v),
    }
}

pub open spec fn printable_all(ts: Seq<SexpView>) -> bool
    decreases ts, 1int,
{
    if ts.len() == 0 {
        true
    } else {
        printable(ts[0]) && printable_all(ts.subrange(1, ts.len() as int))
    }
}

/// The token a leaf scans back to.
pub open spec fn leaf_token(v: SexpView) -> TokenView {
    match v {
        SexpView::Ident(n) => TokenView::Ident(n),
        SexpView::Literal(l) => match l {
            LiteralView::Atom(n) => TokenView::Atom(n),
            LiteralView::Str(t) => TokenView::StringLit(t),
            LiteralView::Integer(n) => TokenView::Integer(n),
            LiteralView::Float(d) => TokenView::Number(d),
            LiteralView::Percent(d) => TokenView::Percent(d),
        },
        SexpView::List(_) => TokenView::Sym('('),
    }
}

/// The token kinds a printed tree scans back to.
pub open spec fn tokens_of(v: SexpView) -> Seq<TokenView>
    decreases v, 0int,
{
    match v {
        SexpView::List(ts) => seq![TokenView::Sym('(')] + tokens_of_terms(ts) + seq![
            TokenView::Sym(')'),
        ],
        _ => seq![leaf_token(v)],
    }
}

pub open spec fn tokens_of_terms(ts: Seq<SexpView>) -> Seq<TokenView>
    decreases ts, 1int,
{
    if ts.len() == 0 {
        Seq::empty()
    } else {
        tokens_of(ts[0]) + tokens_of_terms(ts.subrange(1, ts.len() as int))
    }
}

/// The token kinds of a located token sequence.
pub open spec fn toks_kinds(s: Seq<ScannedTokenView>) -> Seq<TokenView> {
    s.map_values(|t: ScannedTokenView| t.tok)
}

/// A printed tree always opens with at least one token, and never with a
/// closing paren or the end marker.
proof fn lemma_tokens_of_head(v: SexpView)
    ensures
        tokens_of(v).len() >= 1,
        !(tokens_of(v)[0] is EOF),
        tokens_of(v)[0] != TokenView::Sym(')'),
{
    match v {
        SexpView::List(ts) => {
            assert(tokens_of(v)[0] == TokenView::Sym('('));
        },
        _ => {},
    }
}

/// Scanning a printed tree embedded in a longer text yields its tokens,
/// then whatever the rest of the text yields.
#[verifier::rlimit(100)]
proof fn lemma_scan_print(cs: Seq<char>, i: int, line: int, col: int, v: SexpView)
    requires
        printable(v),
        0 <= i,
        i + print_sexp_spec(v).len() <= cs.len(),
        cs.subrange(i, i + print_sexp_spec(v).len() as int) =~= print_sexp_spec(v),
        scanner::sep_at(cs, i + print_sexp_spec(v).len() as int),
    ensures
        ({
            let l = print_sexp_spec(v).len() as int;
            match (scanner::scan_spec(cs, i, line, col), scanner::scan_spec(cs, i + l, line, col + l)) {
                (Ok(a), Ok(b)) => toks_kinds(a) == tokens_of(v) + toks_kinds(b),
                (Err(e1), Err(e2)) => e1 == e2,
                _ => false,
            }
        }),
    decreases v, 0int,
{
    let l = print_sexp_spec(v).len() as int;
    match v {
        SexpView::Ident(n) => {
            scanner::lemma_scan_ident_at(cs, i, line, col, n);
            lemma_cons_kinds(leaf_token(v), v, cs, i, l, line, col);
        },
        SexpView::Literal(lit) => {
            match lit {
                LiteralView::Atom(n) => {
                    scanner::lemma_scan_atom_at(cs, i, line, col, n);
                },
                LiteralView::Str(t) => {
                    scanner::lemma_scan_string_at(cs, i, line, col, t);
                },
                LiteralView::Integer(n) => {
                    scanner::lemma_scan_integer_at(cs, i, line, col, n);
                },
                LiteralView::Float(d) => {
                    scanner::lemma_scan_float_at(cs, i, line, col, d);
                },
                LiteralView::Percent(d) => {
                    scanner::lemma_scan_percent_at(cs, i, line, col, d);
                },
            }
            lemma_cons_kinds(leaf_token(v), v, cs, i, l, line, col);
        },
        SexpView::List(ts) => {
            let tl = print_terms_spec(ts).len() as int;
            assert(l == tl + 2);
            assert forall|k: int| 0 <= k < l implies #[trigger] cs[i + k] == print_sexp_spec(v)[k] by {
                assert(cs.subrange(i, i + l)[k] == cs[i + k]);
            }
            assert(cs[i + 0] == '(');
            assert(cs[i] == '(');
            assert(!scanner::is_digit(cs[i]) && cs[i] != '-' && !scanner::is_letter(cs[i]) && cs[i]
                != ':' && cs[i] != '"' && cs[i] != '\n' && cs[i] != ' ' && cs[i] != '\t');
            assert forall|k: int| 0 <= k < tl implies #[trigger] cs.subrange(i + 1, i + 1 + tl)[k]
                == print_terms_spec(ts)[k] by {
                assert(cs.subrange(i + 1, i + 1 + tl)[k] == cs[i + 1 + k]);
                assert(cs[i + (1 + k)] == print_sexp_spec(v)[1 + k]);
            }
            assert(cs.subrange(i + 1, i + 1 + tl) =~= print_terms_spec(ts));
            assert(cs[i + (l - 1)] == print_sexp_spec(v)[l - 1]);
            assert(cs[i + 1 + tl] == ')');
            lemma_scan_print_terms(cs, i + 1, line, col + 1, ts);
            // the closing paren token
            assert(cs[i + 1 + tl] == ')');
            let j2 = i + 1 + tl;
            assert(scanner::scan_spec(cs, j2, line, col + 1 + tl) == scanner::cons_tok(
                ScannedTokenView {
                    tok: TokenView::Sym(')'),
                    loc: LocView { line, col: col + 1 + tl + 1 },
                },
                scanner::scan_spec(cs, j2 + 1, line, col + 1 + tl + 1),
            ));
            match (
                scanner::scan_spec(cs, i, line, col),
                scanner::scan_spec(cs, i + 1, line, col + 1),
                scanner::scan_spec(cs, j2, line, col + 1 + tl),
                scanner::scan_spec(cs, i + l, line, col + l),
            ) {
                (Ok(a0), Ok(a1), Ok(a2), Ok(b)) => {
                    assert(a0 =~= seq![
                        ScannedTokenView {
                            tok: TokenView::Sym('('),
                            loc: LocView { line, col: col + 1 },
                        },
                    ] + a1);
                    assert(a2 =~= seq![
                        ScannedTokenView {
                            tok: TokenView::Sym(')'),
                            loc: LocView { line, col: col + 1 + tl + 1 },
                        },
                    ] + b);
                    assert(toks_kinds(a0) =~= seq![TokenView::Sym('(')] + toks_kinds(a1));
                    assert(toks_kinds(a2) =~= seq![TokenView::Sym(')')] + toks_kinds(b));
                    assert(toks_kinds(a0) =~= tokens_of(v) + toks_kinds(b));
                },
                (Err(_), Err(_), Err(_), Err(_)) => {},
                _ => {
                    assert(false);
                },
            }
        },
    }
}

/// Whatever one scanned token is put in front of, the kinds concatenate.
proof fn lemma_cons_kinds(
    tk: TokenView,
    v: SexpView,
    cs: Seq<char>,
    i: int,
    l: int,
    line: int,
    col: int,
)
    requires
        !(v is List),
        tokens_of(v) == seq![tk],
        scanner::scan_spec(cs, i, line, col) == scanner::cons_tok(
            ScannedTokenView { tok: tk, loc: LocView { line, col: col + l } },
            scanner::scan_spec(cs, i + l, line, col + l),
        ),
    ensures
        match (scanner::scan_spec(cs, i, line, col), scanner::scan_spec(cs, i + l, line, col + l)) {
            (Ok(a), Ok(b)) => toks_kinds(a) == tokens_of(v) + toks_kinds(b),
            (Err(e1), Err(e2)) => e1 == e2,
            _ => false,
        },
{
    match scanner::scan_spec(cs, i + l, line, col + l) {
        Ok(b) => {
            let t = ScannedTokenView { tok: tk, loc: LocView { line, col: col + l } };
            assert(toks_kinds(seq![t] + b) =~= seq![tk] + toks_kinds(b));
        },
        Err(_) => {},
    }
}

/// Scanning the printed terms of a list, up to its closing paren, yields
/// their tokens then the scan from the paren on.
proof fn lemma_scan_print_terms(cs: Seq<char>, j: int, line: int, col: int, ts: Seq<SexpView>)
    requires
        printable_all(ts),
        0 <= j,
        j + print_terms_spec(ts).len() < cs.len(),
        cs.subrange(j, j + print_terms_spec(ts).len() as int) =~= print_terms_spec(ts),
        cs[j + print_terms_spec(ts).len() as int] == ')',
    ensures
        ({
            let tl = print_terms_spec(ts).len() as int;
            match (scanner::scan_spec(cs, j, line, col), scanner::scan_spec(cs, j + tl, line, col + tl)) {
                (Ok(a), Ok(b)) => toks_kinds(a) == tokens_of_terms(ts) + toks_kinds(b),
                (Err(e1), Err(e2)) => e1 == e2,
                _ => false,
            }
        }),
    decreases ts, 1int,
{
    let tl = print_terms_spec(ts).len() as int;
    if ts.len() == 0 {
        match scanner::scan_spec(cs, j, line, col) {
            Ok(a) => {
                assert(toks_kinds(a) =~= tokens_of_terms(ts) + toks_kinds(a));
            },
            Err(_) => {},
        }
    } else if ts.len() == 1 {
        assert(print_terms_spec(ts) == print_sexp_spec(ts[0]));
        assert(scanner::sep_at(cs, j + tl));
        lemma_scan_print(cs, j, line, col, ts[0]);
        let rest = ts.subrange(1, ts.len() as int);
        assert(tokens_of_terms(rest) =~= Seq::<TokenView>::empty());
        match (scanner::scan_spec(cs, j, line, col), scanner::scan_spec(cs, j + tl, line, col + tl)) {
            (Ok(a), Ok(b)) => {
                assert(tokens_of_terms(ts) =~= tokens_of(ts[0]));
                assert(toks_kinds(a) == tokens_of_terms(ts) + toks_kinds(b));
            },
            _ => {},
        }
    } else {
        let h = ts[0];
        let rest = ts.subrange(1, ts.len() as int);
        let l0 = print_sexp_spec(h).len() as int;
        let tlr = print_terms_spec(rest).len() as int;
        assert(print_terms_spec(ts) == print_sexp_spec(h) + seq![' '] + print_terms_spec(rest));
        assert(tl == l0 + 1 + tlr);
        assert forall|k: int| 0 <= k < tl implies #[trigger] cs[j + k] == print_terms_spec(ts)[k] by {
            assert(cs.subrange(j, j + tl)[k] == cs[j + k]);
        }
        assert forall|k: int| 0 <= k < l0 implies #[trigger] cs.subrange(j, j + l0)[k]
            == print_sexp_spec(h)[k] by {
            assert(cs.subrange(j, j + l0)[k] == cs[j + k]);
            assert(cs[j + k] == print_terms_spec(ts)[k]);
        }
        assert(cs.subrange(j, j + l0) =~= print_sexp_spec(h));
        assert(cs[j + l0] == print_terms_spec(ts)[l0]);
        assert(cs[j + l0] == ' ');
        assert(scanner::sep_at(cs, j + l0));
        lemma_scan_print(cs, j, line, col, h);
        // the separating space is skipped
        assert(scanner::scan_spec(cs, j + l0, line, col + l0) == scanner::scan_spec(
            cs,
            j + l0 + 1,
            line,
            col + l0 + 1,
        ));
        assert forall|k: int| 0 <= k < tlr implies #[trigger] cs.subrange(
            j + l0 + 1,
            j + l0 + 1 + tlr,
        )[k] == print_terms_spec(rest)[k] by {
            assert(cs.subrange(j + l0 + 1, j + l0 + 1 + tlr)[k] == cs[j + l0 + 1 + k]);
            assert(cs[j + (l0 + 1 + k)] == print_terms_spec(ts)[l0 + 1 + k]);
        }
        assert(cs.subrange(j + l0 + 1, j + l0 + 1 + tlr) =~= print_terms_spec(rest));
        assert(cs[j + (l0 + 1 + tlr)] == cs[j + tl]);
        lemma_scan_print_terms(cs, j + l0 + 1, line, col + l0 + 1, rest);
        match (
            scanner::scan_spec(cs, j, line, col),
            scanner::scan_spec(cs, j + l0 + 1, line, col + l0 + 1),
            scanner::scan_spec(cs, j + tl, line, col + tl),
        ) {
            (Ok(a0), Ok(a1), Ok(b)) => {
                assert(toks_kinds(a0) == tokens_of(h) + toks_kinds(a1));
                assert(toks_kinds(a1) == tokens_of_terms(rest) + toks_kinds(b));
                assert(tokens_of_terms(ts) == tokens_of(h) + tokens_of_terms(rest));
                assert(tokens_of(h) + (tokens_of_terms(rest) + toks_kinds(b)) =~= (tokens_of(h)
                    + tokens_of_terms(rest)) + toks_kinds(b));
            },
            (Err(_), Err(_), Err(_)) => {},
            _ => {
                assert(false);
            },
        }
    }
}

/// Parsing a printed tree's tokens at `i` rebuilds exactly that tree and
/// stops just past it.
proof fn lemma_parse_print(toks: Seq<ScannedTokenView>, i: int, v: SexpView)
    requires
        0 <= i,
        i + tokens_of(v).len() <= toks.len(),
        forall|k: int| 0 <= k < tokens_of(v).len() ==> #[trigger] toks[i + k].tok == tokens_of(
            v,
        )[k],
    ensures
        parse_term_spec(toks, i) == Ok::<_, ParseErrorView>((v, i + tokens_of(v).len())),
    decreases v, 0int,
{
    match v {
        SexpView::List(ts) => {
            assert(toks[i + 0].tok == tokens_of(v)[0]);
            assert(toks[i].tok == TokenView::Sym('('));
            let fl = tokens_of_terms(ts).len() as int;
            assert forall|k: int| 0 <= k < fl implies #[trigger] toks[i + 1 + k].tok
                == tokens_of_terms(ts)[k] by {
                assert(toks[i + (1 + k)].tok == tokens_of(v)[1 + k]);
            }
            assert(toks[i + (1 + fl)].tok == tokens_of(v)[1 + fl]);
            assert(toks[i + 1 + fl].tok == TokenView::Sym(')'));
            lemma_parse_print_terms(toks, i + 1, ts);
        },
        _ => {
            assert(toks[i + 0].tok == tokens_of(v)[0]);
            assert(toks[i].tok == leaf_token(v));
        },
    }
}

/// Parsing the tokens of printed list terms collects exactly those terms
/// and consumes the closing paren.
proof fn lemma_parse_print_terms(toks: Seq<ScannedTokenView>, i: int, ts: Seq<SexpView>)
    requires
        0 <= i,
        i + tokens_of_terms(ts).len() + 1 <= toks.len(),
        forall|k: int| 0 <= k < tokens_of_terms(ts).len() ==> #[trigger] toks[i + k].tok
            == tokens_of_terms(ts)[k],
        toks[i + tokens_of_terms(ts).len()].tok == TokenView::Sym(')'),
    ensures
        parse_list_spec(toks, i) == Ok::<_, ParseErrorView>((
            ts,
            i + tokens_of_terms(ts).len() + 1,
        )),
    decreases ts, 1int,
{
    let fl = tokens_of_terms(ts).len() as int;
    if ts.len() == 0 {
        assert(toks[i].tok == TokenView::Sym(')'));
        assert(ts =~= Seq::<SexpView>::empty());
        assert(parse_list_spec(toks, i) == Ok::<_, ParseErrorView>((ts, i + 1)));
    } else {
        let h = ts[0];
        let rest = ts.subrange(1, ts.len() as int);
        let n0 = tokens_of(h).len() as int;
        lemma_tokens_of_head(h);
        assert(tokens_of_terms(ts) == tokens_of(h) + tokens_of_terms(rest));
        assert(fl == n0 + tokens_of_terms(rest).len());
        assert(toks[i + 0].tok == tokens_of_terms(ts)[0]);
        assert(tokens_of_terms(ts)[0] == tokens_of(h)[0]);
        assert(toks[i].tok != TokenView::Sym(')'));
        assert(!(toks[i].tok is EOF));
        assert forall|k: int| 0 <= k < n0 implies #[trigger] toks[i + k].tok == tokens_of(h)[k] by {
            assert(toks[i + k].tok == tokens_of_terms(ts)[k]);
        }
        lemma_parse_print(toks, i, h);
        let j = i + n0;
        assert(scanner::clamp_step(i, j, toks.len() as int) == j);
        assert forall|k: int| 0 <= k < tokens_of_terms(rest).len() implies #[trigger] toks[j
            + k].tok == tokens_of_terms(rest)[k] by {
            assert(toks[i + (n0 + k)].tok == tokens_of_terms(ts)[n0 + k]);
        }
        assert(toks[i + (n0 + tokens_of_terms(rest).len())].tok == toks[i + fl].tok);
        lemma_parse_print_terms(toks, j, rest);
        assert(seq![h] + rest =~= ts);
    }
}

/// Printing a tree and reparsing the text rebuilds the identical tree, for
/// every tree whose names and literals the scanner itself could produce.
pub proof fn lemma_round_trip(v: SexpView)
    requires
        printable(v),
    ensures
        parse_result(print_sexp_spec(v)) == Ok::<_, crate::error::ErrorView>(v),
{
    let cs = print_sexp_spec(v);
    let l = cs.len() as int;
    assert(cs.subrange(0, l) =~= cs);
    lemma_scan_print(cs, 0, 0, 0, v);
    let eof = ScannedTokenView { tok: TokenView::EOF, loc: LocView { line: 0, col: l } };
    assert(scanner::scan_spec(cs, l, 0, l) == Ok::<_, scanner::ErrorView>(seq![eof]));
    match scanner::scan_result(cs) {
        Ok(a) => {
            assert(toks_kinds(a) == tokens_of(v) + toks_kinds(seq![eof]));
            assert(toks_kinds(seq![eof]) =~= seq![TokenView::EOF]);
            let n = tokens_of(v).len() as int;
            assert(a.len() == toks_kinds(a).len());
            assert(a.len() == n + 1);
            assert forall|k: int| 0 <= k < n implies #[trigger] a[0 + k].tok == tokens_of(v)[k] by {
                assert(toks_kinds(a)[k] == a[k].tok);
                assert((tokens_of(v) + seq![TokenView::EOF])[k] == tokens_of(v)[k]);
            }
            lemma_parse_print(a, 0, v);
        },
        Err(_) => {
            assert(false);
        },
    }
}

} // verus!
