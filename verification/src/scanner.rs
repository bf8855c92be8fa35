//! Lexical scanner: turns source text into a sequence of located tokens.
//!
//! Number literals are held exactly as scanned, as a `Decimal`: an integer
//! mantissa together with the count of fractional digits, so `12.34` is
//! `Decimal { mantissa: 1234, exponent: 2 }`.  A trailing `%` reclassifies a
//! number as a percentage, holding the unscaled value.
use vstd::prelude::*;

verus! {

use vstd::string::StrSliceExecFns;
use vstd::string::StringExecFns;


/// An exact decimal number: `mantissa / 10^exponent`.
#[derive(Clone, Copy, PartialEq, Eq, Structural, Debug)]
pub struct Decimal {
    pub mantissa: i64,
    pub exponent: u32,
}

impl Decimal {
    /// The same quantity divided by one hundred, as used to turn a
    /// percentage into a unit fraction.
    pub fn div_100(self) -> (r: Decimal)
        requires
            self.exponent <= u32::MAX - 2,
        ensures
            r == (Decimal { mantissa: self.mantissa, exponent: (self.exponent + 2) as u32 }),
    {
        Decimal { mantissa: self.mantissa, exponent: self.exponent + 2 }
    }
}

/// A zero-based source position; tokens and errors carry one for diagnostics.
#[derive(Clone, Copy, PartialEq, Eq, Structural, Debug, Default)]
pub struct Location {
    pub line: usize,
    pub col: usize,
}

/// A source position with mathematical integers, used by specifications.
pub ghost struct LocView {
    pub line: int,
    pub col: int,
}

impl View for Location {
    type V = LocView;

    open spec fn view(&self) -> LocView {
        LocView { line: self.line as int, col: self.col as int }
    }
}

#[derive(Debug)]
pub enum Token {
    Ident(String),
    Atom(String),
    StringLit(String),
    Sym(char),
    Integer(i64),
    Number(Decimal),
    Percent(Decimal),
    EOF,
}

pub ghost enum TokenView {
    Ident(Seq<char>),
    Atom(Seq<char>),
    StringLit(Seq<char>),
    Sym(char),
    Integer(i64),
    Number(Decimal),
    Percent(Decimal),
    EOF,
}

impl View for Token {
    type V = TokenView;

    open spec fn view(&self) -> TokenView {
        match self {
            Token::Ident(name) => TokenView::Ident(name@),
            Token::Atom(name) => TokenView::Atom(name@),
            Token::StringLit(text) => TokenView::StringLit(text@),
            Token::Sym(c) => TokenView::Sym(*c),
            Token::Integer(n) => TokenView::Integer(*n),
            Token::Number(d) => TokenView::Number(*d),
            Token::Percent(d) => TokenView::Percent(*d),
            Token::EOF => TokenView::EOF,
        }
    }
}

#[derive(Debug)]
pub struct ScannedToken {
    pub tok: Token,
    pub loc: Location,
}

pub ghost struct ScannedTokenView {
    pub tok: TokenView,
    pub loc: LocView,
}

impl View for ScannedToken {
    type V = ScannedTokenView;

    open spec fn view(&self) -> ScannedTokenView {
        ScannedTokenView { tok: self.tok@, loc: self.loc@ }
    }
}

#[derive(Clone, Copy, PartialEq, Eq, Structural, Debug)]
pub enum ErrorKind {
    IllegalChar { ch: char },
    IntParseFailed,
    FloatParseFailed,
}

/// A fatal scan fault: the first illegal character or malformed number found.
#[derive(Clone, Copy, PartialEq, Eq, Structural, Debug)]
pub struct Error {
    pub kind: ErrorKind,
    pub loc: Location,
}

pub ghost struct ErrorView {
    pub kind: ErrorKind,
    pub loc: LocView,
}

impl View for Error {
    type V = ErrorView;

    open spec fn view(&self) -> ErrorView {
        ErrorView { kind: self.kind, loc: self.loc@ }
    }
}

// ---------------------------------------------------------------------------
// Character classes
// ---------------------------------------------------------------------------

pub open spec fn is_digit(c: char) -> bool {
    48 <= c as u32 <= 57
}

pub open spec fn is_letter(c: char) -> bool {
    (97 <= c as u32 <= 122) || (65 <= c as u32 <= 90)
}

pub open spec fn is_ident_char(c: char) -> bool {
    is_letter(c) || is_digit(c) || c == '-'
}

pub open spec fn is_digit_or_dot(c: char) -> bool {
    is_digit(c) || c == '.'
}

pub open spec fn digit_val(c: char) -> int {
    c as u32 - 48
}

// ---------------------------------------------------------------------------
// Specification of the scan
// ---------------------------------------------------------------------------

/// First index at or after `j` whose character is not a digit or a dot.
pub open spec fn span_end(cs: Seq<char>, j: int) -> int
    decreases cs.len() - j,
{
    if j < 0 || j >= cs.len() {
        j
    } else if is_digit_or_dot(cs[j]) {
        span_end(cs, j + 1)
    } else {
        j
    }
}

/// First index at or after `j` whose character cannot continue an identifier.
pub open spec fn ident_end(cs: Seq<char>, j: int) -> int
    decreases cs.len() - j,
{
    if j < 0 || j >= cs.len() {
        j
    } else if is_ident_char(cs[j]) {
        ident_end(cs, j + 1)
    } else {
        j
    }
}

/// First index at or after `j` holding a double quote.
pub open spec fn string_end(cs: Seq<char>, j: int) -> int
    decreases cs.len() - j,
{
    if j < 0 || j >= cs.len() {
        j
    } else if cs[j] != '"' {
        string_end(cs, j + 1)
    } else {
        j
    }
}

/// How many dots `cs[j..k)` holds.
pub open spec fn count_dots(cs: Seq<char>, j: int, k: int) -> int
    decreases k - j,
{
    if j >= k {
        0
    } else {
        count_dots(cs, j, k - 1) + if cs[k - 1] == '.' { 1int } else { 0int }
    }
}

/// Index of the last dot in `cs[j..k)` (meaningful only when one is there).
pub open spec fn dot_pos(cs: Seq<char>, j: int, k: int) -> int
    decreases k - j,
{
    if j >= k {
        j
    } else if cs[k - 1] == '.' {
        k - 1
    } else {
        dot_pos(cs, j, k - 1)
    }
}

/// The value of the digits of `cs[j..k)` read in base ten, dots skipped.
pub open spec fn span_val(cs: Seq<char>, j: int, k: int) -> int
    decreases k - j,
{
    if j >= k {
        0
    } else if is_digit(cs[k - 1]) {
        span_val(cs, j, k - 1) * 10 + digit_val(cs[k - 1])
    } else {
        span_val(cs, j, k - 1)
    }
}

/// Largest magnitude a scanned number may carry: `i64::MAX`, or one more
/// when a leading minus sign will negate it.
pub open spec fn mag_bound(neg: bool) -> int {
    if neg {
        0x8000_0000_0000_0000
    } else {
        0x7FFF_FFFF_FFFF_FFFF
    }
}

/// Most fractional digits a `Decimal` may carry, chosen so that dividing by
/// one hundred can never overflow the exponent.
pub open spec fn max_frac_len() -> int {
    u32::MAX - 2
}

/// What scanning a number starting at `i` (a digit or minus sign) yields:
/// the token and the index just past it, or the failure kind and the index
/// the scan had reached.
pub open spec fn number_spec(cs: Seq<char>, i: int) -> Result<(TokenView, int), (ErrorKind, int)>
    recommends
        0 <= i < cs.len(),
{
    let neg = cs[i] == '-';
    let d0 = if neg { i + 1 } else { i };
    let ne = span_end(cs, d0);
    let dots = count_dots(cs, d0, ne);
    let mag = span_val(cs, d0, ne);
    if dots == 0 {
        if ne == d0 || mag > mag_bound(neg) {
            Err((ErrorKind::IntParseFailed, ne))
        } else {
            let v: i64 = if neg { (-mag) as i64 } else { mag as i64 };
            if ne < cs.len() && cs[ne] == '%' {
                Ok((TokenView::Percent(Decimal { mantissa: v, exponent: 0 }), ne + 1))
            } else {
                Ok((TokenView::Integer(v), ne))
            }
        }
    } else if dots == 1 {
        let frac_len = ne - dot_pos(cs, d0, ne) - 1;
        if ne - d0 <= 1 || frac_len > max_frac_len() || mag > mag_bound(neg) {
            Err((ErrorKind::FloatParseFailed, ne))
        } else {
            let v: i64 = if neg { (-mag) as i64 } else { mag as i64 };
            let d = Decimal { mantissa: v, exponent: frac_len as u32 };
            if ne < cs.len() && cs[ne] == '%' {
                Ok((TokenView::Percent(d), ne + 1))
            } else {
                Ok((TokenView::Number(d), ne))
            }
        }
    } else {
        Err((ErrorKind::FloatParseFailed, ne))
    }
}

/// Keeps a step index inside `(i, n]` so that the scan specification is
/// visibly decreasing; on every reachable path the step is already there.
pub open spec fn clamp_step(i: int, j: int, n: int) -> int {
    if j <= i {
        i + 1
    } else if j > n {
        n
    } else {
        j
    }
}

pub open spec fn cons_tok(t: ScannedTokenView, r: Result<Seq<ScannedTokenView>, ErrorView>) -> Result<
    Seq<ScannedTokenView>,
    ErrorView,
> {
    match r {
        Ok(rest) => Ok(seq![t] + rest),
        Err(e) => Err(e),
    }
}

/// The scan, specified: the tokens of `cs[i..]` with the cursor at line
/// `line`, column `col`, ending in `EOF`, or the first fault.  A token's
/// location is the position just past its final character.
pub open spec fn scan_spec(cs: Seq<char>, i: int, line: int, col: int) -> Result<
    Seq<ScannedTokenView>,
    ErrorView,
>
    decreases cs.len() - i,
{
    if i < 0 || i >= cs.len() {
        Ok(seq![ScannedTokenView { tok: TokenView::EOF, loc: LocView { line, col } }])
    } else {
        let c = cs[i];
        if is_digit(c) || c == '-' {
            match number_spec(cs, i) {
                Ok((t, j)) => {
                    let j2 = clamp_step(i, j, cs.len() as int);
                    cons_tok(
                        ScannedTokenView { tok: t, loc: LocView { line, col: col + (j - i) } },
                        scan_spec(cs, j2, line, col + (j - i)),
                    )
                },
                Err((k, j)) => Err(
                    ErrorView { kind: k, loc: LocView { line, col: col + (j - i) } },
                ),
            }
        } else if is_letter(c) {
            let e = ident_end(cs, i + 1);
            let j2 = clamp_step(i, e, cs.len() as int);
            cons_tok(
                ScannedTokenView {
                    tok: TokenView::Ident(cs.subrange(i, j2)),
                    loc: LocView { line, col: col + (j2 - i) },
                },
                scan_spec(cs, j2, line, col + (j2 - i)),
            )
        } else if c == ':' {
            let e = if i + 1 < cs.len() && (is_letter(cs[i + 1]) || cs[i + 1] == '-') {
                ident_end(cs, i + 2)
            } else {
                i + 1
            };
            let j2 = clamp_step(i, e, cs.len() as int);
            cons_tok(
                ScannedTokenView {
                    tok: TokenView::Atom(cs.subrange(i + 1, j2)),
                    loc: LocView { line, col: col + (j2 - i) },
                },
                scan_spec(cs, j2, line, col + (j2 - i)),
            )
        } else if c == '"' {
            let e = string_end(cs, i + 1);
            if e >= cs.len() {
                Err(ErrorView { kind: ErrorKind::IllegalChar { ch: '"' }, loc: LocView { line, col } })
            } else {
                let j2 = clamp_step(i, e + 1, cs.len() as int);
                cons_tok(
                    ScannedTokenView {
                        tok: TokenView::StringLit(cs.subrange(i + 1, j2 - 1)),
                        loc: LocView { line, col: col + (j2 - i) },
                    },
                    scan_spec(cs, j2, line, col + (j2 - i)),
                )
            }
        } else if c == '\n' {
            scan_spec(cs, i + 1, line + 1, 0)
        } else if c == ' ' || c == '\t' {
            scan_spec(cs, i + 1, line, col + 1)
        } else if c == '(' || c == ')' {
            cons_tok(
                ScannedTokenView { tok: TokenView::Sym(c), loc: LocView { line, col: col + 1 } },
                scan_spec(cs, i + 1, line, col + 1),
            )
        } else {
            Err(ErrorView { kind: ErrorKind::IllegalChar { ch: c }, loc: LocView { line, col } })
        }
    }
}

/// What `scan` returns on `source`: every token of the text located, or the
/// first fault found.
pub open spec fn scan_result(source: Seq<char>) -> Result<Seq<ScannedTokenView>, ErrorView> {
    scan_spec(source, 0, 0, 0)
}

// ---------------------------------------------------------------------------
// The executable scanner
// ---------------------------------------------------------------------------

fn chars_of(source: &str) -> (r: Vec<char>)
    ensures
        r@ == source@,
{
    let n = source.unicode_len();
    let mut out: Vec<char> = Vec::new();
    let mut i: usize = 0;
    while i < n
        invariant
            i <= n,
            n == source@.len(),
            out@ == source@.take(i as int),
        decreases n - i,
    {
        out.push(source.get_char(i));
        i = i + 1;
        proof {
            assert(out@ =~= source@.take(i as int));
        }
    }
    proof {
        assert(out@ =~= source@);
    }
    out
}

fn digit(c: char) -> (r: bool)
    ensures
        r == is_digit(c),
{
    let u = c as u32;
    48 <= u && u <= 57
}

fn letter(c: char) -> (r: bool)
    ensures
        r == is_letter(c),
{
    let u = c as u32;
    (97 <= u && u <= 122) || (65 <= u && u <= 90)
}

fn ident_char(c: char) -> (r: bool)
    ensures
        r == is_ident_char(c),
{
    letter(c) || digit(c) || c == '-'
}

fn digit_or_dot(c: char) -> (r: bool)
    ensures
        r == is_digit_or_dot(c),
{
    digit(c) || c == '.'
}

fn find_span_end(chars: &Vec<char>, from: usize) -> (r: usize)
    requires
        from <= chars@.len(),
    ensures
        from <= r <= chars@.len(),
        r as int == span_end(chars@, from as int),
{
    let mut j = from;
    while j < chars.len() && digit_or_dot(chars[j])
        invariant
            from <= j <= chars@.len(),
            span_end(chars@, from as int) == span_end(chars@, j as int),
        decreases chars@.len() - j,
    {
        j = j + 1;
    }
    j
}

fn find_ident_end(chars: &Vec<char>, from: usize) -> (r: usize)
    requires
        from <= chars@.len(),
    ensures
        from <= r <= chars@.len(),
        r as int == ident_end(chars@, from as int),
{
    let mut j = from;
    while j < chars.len() && ident_char(chars[j])
        invariant
            from <= j <= chars@.len(),
            ident_end(chars@, from as int) == ident_end(chars@, j as int),
        decreases chars@.len() - j,
    {
        j = j + 1;
    }
    j
}

fn find_string_end(chars: &Vec<char>, from: usize) -> (r: usize)
    requires
        from <= chars@.len(),
    ensures
        from <= r <= chars@.len(),
        r as int == string_end(chars@, from as int),
{
    let mut j = from;
    while j < chars.len() && chars[j] != '"'
        invariant
            from <= j <= chars@.len(),
            string_end(chars@, from as int) == string_end(chars@, j as int),
        decreases chars@.len() - j,
    {
        j = j + 1;
    }
    j
}

/// Every character strictly before the end of a digit span is a digit or dot.
proof fn lemma_span_chars(cs: Seq<char>, j: int)
    ensures
        forall|m: int| j <= m < span_end(cs, j) ==> #[trigger] is_digit_or_dot(cs[m]),
    decreases cs.len() - j,
{
    if 0 <= j < cs.len() && is_digit_or_dot(cs[j]) {
        lemma_span_chars(cs, j + 1);
    }
}

/// The digit value of a span never goes down as the span grows rightward.
proof fn lemma_span_val_nonneg(cs: Seq<char>, j: int, k: int)
    ensures
        span_val(cs, j, k) >= 0,
    decreases k - j,
{
    if j < k {
        lemma_span_val_nonneg(cs, j, k - 1);
    }
}

proof fn lemma_span_val_monotone(cs: Seq<char>, j: int, k1: int, k2: int)
    requires
        k1 <= k2,
    ensures
        span_val(cs, j, k1) <= span_val(cs, j, k2),
    decreases k2 - k1,
{
    if k1 < k2 {
        lemma_span_val_monotone(cs, j, k1, k2 - 1);
        lemma_span_val_nonneg(cs, j, k2 - 1);
    }
}

/// Scan one number starting at `i`, which holds a digit or a minus sign.
fn scan_number(chars: &Vec<char>, i: usize) -> (r: Result<(Token, usize), (ErrorKind, usize)>)
    requires
        i < chars@.len(),
        is_digit(chars@[i as int]) || chars@[i as int] == '-',
    ensures
        match (r, number_spec(chars@, i as int)) {
            (Ok((t, j)), Ok((tv, jv))) => t@ == tv && j == jv && i < j <= chars@.len(),
            (Err((k, j)), Err((kv, jv))) => k == kv && j == jv && i <= j <= chars@.len(),
            _ => false,
        },
{
    let ghost cs = chars@;
    let n = chars.len();
    let neg = chars[i] == '-';
    let d0: usize = if neg { i + 1 } else { i };
    let ne = find_span_end(chars, d0);
    proof {
        lemma_span_chars(cs, d0 as int);
    }
    let bound: u64 = if neg { 0x8000_0000_0000_0000 } else { 0x7FFF_FFFF_FFFF_FFFF };
    let mut dots: usize = 0;
    let mut dotp: usize = d0;
    let mut mag: u64 = 0;
    let mut over: bool = false;
    let mut j = d0;
    while j < ne
        invariant
            d0 <= j <= ne <= cs.len(),
            chars@ == cs,
            forall|m: int| d0 <= m < ne ==> #[trigger] is_digit_or_dot(cs[m]),
            dots == count_dots(cs, d0 as int, j as int),
            dots <= j,
            dotp as int == dot_pos(cs, d0 as int, j as int),
            d0 <= dotp <= j,
            dots > 0 ==> dotp < j && cs[dotp as int] == '.',
            bound == mag_bound(neg),
            !over ==> mag == span_val(cs, d0 as int, j as int) && mag <= bound,
            over ==> span_val(cs, d0 as int, j as int) > bound,
        decreases ne - j,
    {
        let c = chars[j];
        if c == '.' {
            dots = dots + 1;
            dotp = j;
        } else if !over {
            proof {
                assert(is_digit_or_dot(cs[j as int]));
            }
            let d = (c as u32 - 48) as u64;
            let next: u128 = (mag as u128) * 10 + (d as u128);
            if next > bound as u128 {
                over = true;
            } else {
                mag = next as u64;
            }
        } else {
            proof {
                lemma_span_val_nonneg(cs, d0 as int, j as int);
            }
        }
        j = j + 1;
    }
    if dots == 0 {
        if ne == d0 || over {
            Err((ErrorKind::IntParseFailed, ne))
        } else {
            let v: i64 = if neg {
                if mag == 0x8000_0000_0000_0000 {
                    i64::MIN
                } else {
                    -(mag as i64)
                }
            } else {
                mag as i64
            };
            if ne < chars.len() && chars[ne] == '%' {
                Ok((Token::Percent(Decimal { mantissa: v, exponent: 0 }), ne + 1))
            } else {
                Ok((Token::Integer(v), ne))
            }
        }
    } else if dots == 1 {
        let frac_len: usize = ne - dotp - 1;
        if ne - d0 <= 1 || (frac_len as u64) > (0xFFFF_FFFDu64) || over {
            Err((ErrorKind::FloatParseFailed, ne))
        } else {
            let v: i64 = if neg {
                if mag == 0x8000_0000_0000_0000 {
                    i64::MIN
                } else {
                    -(mag as i64)
                }
            } else {
                mag as i64
            };
            let d = Decimal { mantissa: v, exponent: frac_len as u32 };
            if ne < chars.len() && chars[ne] == '%' {
                Ok((Token::Percent(d), ne + 1))
            } else {
                Ok((Token::Number(d), ne))
            }
        }
    } else {
        Err((ErrorKind::FloatParseFailed, ne))
    }
}

/// Collect the characters of `text[from..to)` into an owned string.
fn collect_chars(text: &str, from: usize, to: usize) -> (r: String)
    requires
        from <= to <= text@.len(),
    ensures
        r@ == text@.subrange(from as int, to as int),
{
    String::from_str(text.substring_char(from, to))
}

impl DeepView for ScannedToken {
    type V = ScannedTokenView;

    open spec fn deep_view(&self) -> ScannedTokenView {
        self@
    }
}

/// The tokens already produced, in front of whatever the rest of the scan gives.
pub open spec fn cons_all(
    ts: Seq<ScannedTokenView>,
    r: Result<Seq<ScannedTokenView>, ErrorView>,
) -> Result<Seq<ScannedTokenView>, ErrorView> {
    match r {
        Ok(rest) => Ok(ts + rest),
        Err(e) => Err(e),
    }
}

/// A single left-to-right pass turning source text into located tokens.
pub struct Scanner {
    text: String,
    chars: Vec<char>,
    index: usize,
    line: usize,
    col: usize,
    tokens: Vec<ScannedToken>,
}

impl Scanner {
    /// The character sequence this scanner walks.
    pub closed spec fn source(&self) -> Seq<char> {
        self.chars@
    }

    /// A scanner as `new` hands it out: at the start of its text.
    pub closed spec fn fresh(&self) -> bool {
        &&& self.text@ == self.chars@
        &&& self.index == 0
        &&& self.line == 0
        &&& self.col == 0
        &&& self.tokens@ == Seq::<ScannedToken>::empty()
    }

    pub fn new(source: &str) -> (s: Scanner)
        ensures
            s.fresh(),
            s.source() == source@,
    {
        Scanner {
            text: String::from_str(source),
            chars: chars_of(source),
            index: 0,
            line: 0,
            col: 0,
            tokens: Vec::new(),
        }
    }

    /// Scan the whole text: every token located and `EOF` appended, or the
    /// first fault found.
    pub fn scan(self) -> (r: Result<Vec<ScannedToken>, Error>)
        requires
            self.fresh(),
        ensures
            match r {
                Ok(v) => scan_result(self.source()) == Ok::<_, ErrorView>(v.deep_view()),
                Err(e) => scan_result(self.source()) == Err::<Seq<ScannedTokenView>, _>(e@),
            },
    {
        let mut sc = self;
        let ghost cs = sc.chars@;
        let n = sc.chars.len();
        while sc.index < n
            invariant
                self.source() == cs,
                n == cs.len(),
                sc.chars@ == cs,
                sc.text@ == cs,
                sc.index <= n,
                sc.line <= sc.index,
                sc.col <= sc.index,
                cons_all(
                    sc.tokens.deep_view(),
                    scan_spec(cs, sc.index as int, sc.line as int, sc.col as int),
                ) == scan_result(cs),
            decreases n - sc.index,
        {
            let ghost ts0 = sc.tokens.deep_view();
            let ghost i0 = sc.index as int;
            let ghost l0 = sc.line as int;
            let ghost c0 = sc.col as int;
            let c = sc.chars[sc.index];
            if digit(c) || c == '-' {
                match scan_number(&sc.chars, sc.index) {
                    Ok((t, j)) => {
                        let loc = Location { line: sc.line, col: sc.col + (j - sc.index) };
                        sc.tokens.push(ScannedToken { tok: t, loc });
                        sc.col = sc.col + (j - sc.index);
                        sc.index = j;
                        proof {
                            let tv = ScannedTokenView { tok: t@, loc: loc@ };
                            assert(sc.tokens.deep_view() =~= ts0 + seq![tv]);
                            assert(clamp_step(i0, j as int, cs.len() as int) == j as int);
                            lemma_cons_assoc(ts0, tv, cs, sc.index as int, sc.line as int, sc.col as int);
                        }
                    },
                    Err((k, j)) => {
                        let e = Error {
                            kind: k,
                            loc: Location { line: sc.line, col: sc.col + (j - sc.index) },
                        };
                        return Err(e);
                    },
                }
            } else if letter(c) {
                let e = find_ident_end(&sc.chars, sc.index + 1);
                let name = collect_chars(sc.text.as_str(), sc.index, e);
                let loc = Location { line: sc.line, col: sc.col + (e - sc.index) };
                sc.tokens.push(ScannedToken { tok: Token::Ident(name), loc });
                sc.col = sc.col + (e - sc.index);
                sc.index = e;
                proof {
                    let tv = ScannedTokenView { tok: TokenView::Ident(cs.subrange(i0, e as int)), loc: loc@ };
                    assert(sc.tokens.deep_view() =~= ts0 + seq![tv]);
                    assert(clamp_step(i0, e as int, cs.len() as int) == e as int);
                    lemma_cons_assoc(ts0, tv, cs, sc.index as int, sc.line as int, sc.col as int);
                }
            } else if c == ':' {
                let e: usize = if sc.index + 1 < n {
                    let c1 = sc.chars[sc.index + 1];
                    if letter(c1) || c1 == '-' {
                        find_ident_end(&sc.chars, sc.index + 2)
                    } else {
                        sc.index + 1
                    }
                } else {
                    sc.index + 1
                };
                let name = collect_chars(sc.text.as_str(), sc.index + 1, e);
                let loc = Location { line: sc.line, col: sc.col + (e - sc.index) };
                sc.tokens.push(ScannedToken { tok: Token::Atom(name), loc });
                sc.col = sc.col + (e - sc.index);
                sc.index = e;
                proof {
                    let tv = ScannedTokenView {
                        tok: TokenView::Atom(cs.subrange(i0 + 1, e as int)),
                        loc: loc@,
                    };
                    assert(sc.tokens.deep_view() =~= ts0 + seq![tv]);
                    assert(clamp_step(i0, e as int, cs.len() as int) == e as int);
                    lemma_cons_assoc(ts0, tv, cs, sc.index as int, sc.line as int, sc.col as int);
                }
            } else if c == '"' {
                let e = find_string_end(&sc.chars, sc.index + 1);
                if e >= n {
                    return Err(
                        Error {
                            kind: ErrorKind::IllegalChar { ch: '"' },
                            loc: Location { line: sc.line, col: sc.col },
                        },
                    );
                }
                let text = collect_chars(sc.text.as_str(), sc.index + 1, e);
                let loc = Location { line: sc.line, col: sc.col + (e + 1 - sc.index) };
                sc.tokens.push(ScannedToken { tok: Token::StringLit(text), loc });
                sc.col = sc.col + (e + 1 - sc.index);
                sc.index = e + 1;
                proof {
                    let tv = ScannedTokenView {
                        tok: TokenView::StringLit(cs.subrange(i0 + 1, e as int)),
                        loc: loc@,
                    };
                    assert(sc.tokens.deep_view() =~= ts0 + seq![tv]);
                    assert(clamp_step(i0, e + 1 as int, cs.len() as int) == e + 1 as int);
                    lemma_cons_assoc(ts0, tv, cs, sc.index as int, sc.line as int, sc.col as int);
                }
            } else if c == '\n' {
                sc.index = sc.index + 1;
                sc.line = sc.line + 1;
                sc.col = 0;
            } else if c == ' ' || c == '\t' {
                sc.index = sc.index + 1;
                sc.col = sc.col + 1;
            } else if c == '(' || c == ')' {
                let loc = Location { line: sc.line, col: sc.col + 1 };
                sc.tokens.push(ScannedToken { tok: Token::Sym(c), loc });
                sc.index = sc.index + 1;
                sc.col = sc.col + 1;
                proof {
                    let tv = ScannedTokenView { tok: TokenView::Sym(c), loc: loc@ };
                    assert(sc.tokens.deep_view() =~= ts0 + seq![tv]);
                    lemma_cons_assoc(ts0, tv, cs, sc.index as int, sc.line as int, sc.col as int);
                }
            } else {
                return Err(
                    Error {
                        kind: ErrorKind::IllegalChar { ch: c },
                        loc: Location { line: sc.line, col: sc.col },
                    },
                );
            }
        }
        let loc = Location { line: sc.line, col: sc.col };
        let ghost tsf = sc.tokens.deep_view();
        sc.tokens.push(ScannedToken { tok: Token::EOF, loc });
        proof {
            let tv = ScannedTokenView { tok: TokenView::EOF, loc: loc@ };
            assert(sc.tokens.deep_view() =~= tsf + seq![tv]);
            assert(tsf + seq![tv] =~= tsf + seq![tv] + Seq::<ScannedTokenView>::empty());
        }
        Ok(sc.tokens)
    }
}

/// One scan step in front of the rest keeps the whole result: sequencing of
/// `cons_all` and `cons_tok`.
proof fn lemma_cons_assoc(
    ts: Seq<ScannedTokenView>,
    t: ScannedTokenView,
    cs: Seq<char>,
    i: int,
    line: int,
    col: int,
)
    ensures
        cons_all(ts, cons_tok(t, scan_spec(cs, i, line, col))) == cons_all(
            ts + seq![t],
            scan_spec(cs, i, line, col),
        ),
{
    match scan_spec(cs, i, line, col) {
        Ok(rest) => {
            assert(ts + (seq![t] + rest) =~= (ts + seq![t]) + rest);
        },
        Err(_) => {},
    }
}

/// Scan `source` into located tokens, `EOF` appended, or report the first
/// illegal character or malformed number.
pub fn scan(source: &str) -> (r: Result<Vec<ScannedToken>, Error>)
    ensures
        match r {
            Ok(v) => scan_result(source@) == Ok::<_, ErrorView>(v.deep_view()),
            Err(e) => scan_result(source@) == Err::<Seq<ScannedTokenView>, _>(e@),
        },
{
    Scanner::new(source).scan()
}

/// A successful scan always ends in exactly one `EOF` token.
pub proof fn lemma_scan_wf(cs: Seq<char>, i: int, line: int, col: int)
    ensures
        match scan_spec(cs, i, line, col) {
            Ok(ts) => ts.len() > 0 && ts[ts.len() - 1].tok is EOF,
            Err(_) => true,
        },
    decreases cs.len() - i,
{
    if i < 0 || i >= cs.len() {
    } else {
        let c = cs[i];
        if is_digit(c) || c == '-' {
            match number_spec(cs, i) {
                Ok((t, j)) => {
                    lemma_scan_wf(cs, clamp_step(i, j, cs.len() as int), line, col + (j - i));
                },
                Err(_) => {},
            }
        } else if is_letter(c) {
            let e = ident_end(cs, i + 1);
            let j2 = clamp_step(i, e, cs.len() as int);
            lemma_scan_wf(cs, j2, line, col + (j2 - i));
        } else if c == ':' {
            let e = if i + 1 < cs.len() && (is_letter(cs[i + 1]) || cs[i + 1] == '-') {
                ident_end(cs, i + 2)
            } else {
                i + 1
            };
            let j2 = clamp_step(i, e, cs.len() as int);
            lemma_scan_wf(cs, j2, line, col + (j2 - i));
        } else if c == '"' {
            let e = string_end(cs, i + 1);
            if e < cs.len() {
                let j2 = clamp_step(i, e + 1, cs.len() as int);
                lemma_scan_wf(cs, j2, line, col + (j2 - i));
            }
        } else if c == '\n' {
            lemma_scan_wf(cs, i + 1, line + 1, 0);
        } else if c == ' ' || c == '\t' {
            lemma_scan_wf(cs, i + 1, line, col + 1);
        } else if c == '(' || c == ')' {
            lemma_scan_wf(cs, i + 1, line, col + 1);
        } else {
        }
    }
}

// ---------------------------------------------------------------------------
// Number text: the canonical written form of integers and decimals
// ---------------------------------------------------------------------------

/// The digit character for one value of `0..10`.
pub open spec fn digit_char(d: int) -> char {
    if d == 0 {
        '0'
    } else if d == 1 {
        '1'
    } else if d == 2 {
        '2'
    } else if d == 3 {
        '3'
    } else if d == 4 {
        '4'
    } else if d == 5 {
        '5'
    } else if d == 6 {
        '6'
    } else if d == 7 {
        '7'
    } else if d == 8 {
        '8'
    } else {
        '9'
    }
}

/// The decimal digits of a magnitude, most significant first.
pub open spec fn digits_text(m: nat) -> Seq<char>
    decreases m,
{
    if m < 10 {
        seq![digit_char(m as int)]
    } else {
        digits_text(m / 10) + seq![digit_char((m % 10) as int)]
    }
}

/// `k` zero characters.
pub open spec fn zeros(k: nat) -> Seq<char>
    decreases k,
{
    if k == 0 {
        Seq::empty()
    } else {
        zeros((k - 1) as nat) + seq!['0']
    }
}

/// The magnitude of a mantissa, one past `i64::MAX` included.
pub open spec fn mag_of(m: i64) -> nat {
    if m < 0 {
        (-(m as int)) as nat
    } else {
        m as nat
    }
}

/// The written form of an integer literal.
pub open spec fn int_text(n: i64) -> Seq<char> {
    if n < 0 {
        seq!['-'] + digits_text(mag_of(n))
    } else {
        digits_text(mag_of(n))
    }
}

/// The digits of a magnitude padded with leading zeros to at least `k` digits.
pub open spec fn padded_digits(m: nat, k: nat) -> Seq<char> {
    let ds = digits_text(m);
    if ds.len() >= k {
        ds
    } else {
        zeros((k - ds.len()) as nat) + ds
    }
}

/// The written form of a decimal: its digits with a point before the last
/// `exponent` of them, none when the exponent is zero.
pub open spec fn decimal_text(d: Decimal) -> Seq<char> {
    let sign: Seq<char> = if d.mantissa < 0 {
        seq!['-']
    } else {
        Seq::empty()
    };
    if d.exponent == 0 {
        sign + digits_text(mag_of(d.mantissa))
    } else {
        let ds = padded_digits(mag_of(d.mantissa), d.exponent as nat + 1);
        sign + ds.take(ds.len() - d.exponent) + seq!['.'] + ds.skip(ds.len() - d.exponent)
    }
}

/// The written form of a percent literal.
pub open spec fn percent_text(d: Decimal) -> Seq<char> {
    decimal_text(d) + seq!['%']
}

proof fn lemma_digits_are_digits(m: nat)
    ensures
        digits_text(m).len() >= 1,
        forall|k: int| 0 <= k < digits_text(m).len() ==> is_digit(#[trigger] digits_text(m)[k])
            && digits_text(m)[k] != '.',
    decreases m,
{
    if m >= 10 {
        lemma_digits_are_digits(m / 10);
    }
}

pub proof fn lemma_zeros_are_digits(k: nat)
    ensures
        zeros(k).len() == k,
        forall|j: int| 0 <= j < k ==> zeros(k)[j] == '0',
    decreases k,
{
    if k > 0 {
        lemma_zeros_are_digits((k - 1) as nat);
    }
}

/// A span of digits and dots runs to exactly its last index.
proof fn lemma_span_end_all(cs: Seq<char>, j: int, k: int)
    requires
        0 <= j <= k <= cs.len(),
        forall|m: int| j <= m < k ==> is_digit_or_dot(#[trigger] cs[m]),
        k == cs.len() || !is_digit_or_dot(cs[k]),
    ensures
        span_end(cs, j) == k,
    decreases k - j,
{
    if j < k {
        lemma_span_end_all(cs, j + 1, k);
    }
}

/// A digit-only span holds no dots.
proof fn lemma_count_dots_none(cs: Seq<char>, j: int, k: int)
    requires
        forall|m: int| j <= m < k ==> #[trigger] cs[m] != '.',
    ensures
        count_dots(cs, j, k) == 0,
    decreases k - j,
{
    if j < k {
        lemma_count_dots_none(cs, j, k - 1);
    }
}

/// The value of a span equal to the written digits of `m` is `m` itself.
proof fn lemma_span_val_digits(cs: Seq<char>, j: int, k: int, m: nat)
    requires
        0 <= j <= k <= cs.len(),
        cs.subrange(j, k) =~= digits_text(m),
    ensures
        span_val(cs, j, k) == m,
    decreases m,
{
    lemma_digits_are_digits(m);
    assert(k - j == digits_text(m).len());
    if m < 10 {
        assert(k - j == 1);
        assert(cs.subrange(j, k)[0] == cs[j]);
        assert(cs[j] == digit_char(m as int));
        assert(span_val(cs, j, k) == span_val(cs, j, k - 1) * 10 + digit_val(cs[k - 1]));
    } else {
        assert(cs.subrange(j, k)[k - 1 - j] == cs[k - 1]);
        assert(digits_text(m)[k - 1 - j] == digit_char((m % 10) as int));
        assert(cs[k - 1] == digit_char((m % 10) as int));
        assert forall|t: int| 0 <= t < k - 1 - j implies #[trigger] cs.subrange(j, k - 1)[t]
            == digits_text(m / 10)[t] by {
            assert(cs.subrange(j, k - 1)[t] == cs.subrange(j, k)[t]);
            assert(digits_text(m)[t] == digits_text(m / 10)[t]);
        }
        assert(cs.subrange(j, k - 1) =~= digits_text(m / 10));
        lemma_span_val_digits(cs, j, k - 1, m / 10);
        assert(digit_val(digit_char((m % 10) as int)) == m % 10);
    }
}

/// Every valid integer literal without a trailing percent sign scans to a
/// single `Integer` token holding the same value, then `EOF`.
pub proof fn lemma_scan_integer(n: i64)
    ensures
        scan_result(int_text(n)) == Ok::<_, ErrorView>(
            seq![
                ScannedTokenView {
                    tok: TokenView::Integer(n),
                    loc: LocView { line: 0, col: int_text(n).len() as int },
                },
                ScannedTokenView {
                    tok: TokenView::EOF,
                    loc: LocView { line: 0, col: int_text(n).len() as int },
                },
            ],
        ),
{
    let cs = int_text(n);
    let m = mag_of(n);
    lemma_digits_are_digits(m);
    let neg = n < 0;
    let d0: int = if neg { 1 } else { 0 };
    assert(cs.subrange(d0, cs.len() as int) =~= digits_text(m));
    assert(cs[0] == '-' <==> neg);
    assert forall|k: int| d0 <= k < cs.len() implies is_digit_or_dot(#[trigger] cs[k]) by {
        assert(cs[k] == digits_text(m)[k - d0]);
    }
    lemma_span_end_all(cs, d0, cs.len() as int);
    assert forall|k: int| d0 <= k < cs.len() implies #[trigger] cs[k] != '.' by {
        assert(cs[k] == digits_text(m)[k - d0]);
    }
    lemma_count_dots_none(cs, d0, cs.len() as int);
    lemma_span_val_digits(cs, d0, cs.len() as int, m);
    assert(span_val(cs, d0, cs.len() as int) == m);
    assert(m <= mag_bound(neg));
    assert(number_spec(cs, 0) == Ok::<_, (ErrorKind, int)>((
        TokenView::Integer(n),
        cs.len() as int,
    )));
    assert(is_digit(cs[0]) || cs[0] == '-');
    assert(scan_spec(cs, cs.len() as int, 0, cs.len() as int) == Ok::<_, ErrorView>(
        seq![
            ScannedTokenView {
                tok: TokenView::EOF,
                loc: LocView { line: 0, col: cs.len() as int },
            },
        ],
    ));
    let t = ScannedTokenView {
        tok: TokenView::Integer(n),
        loc: LocView { line: 0, col: cs.len() as int },
    };
    let e = ScannedTokenView { tok: TokenView::EOF, loc: LocView { line: 0, col: cs.len() as int } };
    assert(clamp_step(0, cs.len() as int, cs.len() as int) == cs.len() as int);
    assert(scan_spec(cs, 0, 0, 0) == cons_tok(t, scan_spec(cs, cs.len() as int, 0, cs.len() as int)));
    assert(seq![t] + seq![e] =~= seq![t, e]);
}

/// Ten to the `k`.
pub open spec fn pow10(k: nat) -> int
    decreases k,
{
    if k == 0 {
        1
    } else {
        10 * pow10((k - 1) as nat)
    }
}

/// The value of a free character sequence read as digits, dots skipped.
pub open spec fn seq_val(t: Seq<char>) -> int
    decreases t.len(),
{
    if t.len() == 0 {
        0
    } else if is_digit(t.last()) {
        seq_val(t.drop_last()) * 10 + digit_val(t.last())
    } else {
        seq_val(t.drop_last())
    }
}

/// How many digits a free character sequence holds.
pub open spec fn ndigits(t: Seq<char>) -> nat
    decreases t.len(),
{
    if t.len() == 0 {
        0
    } else if is_digit(t.last()) {
        ndigits(t.drop_last()) + 1
    } else {
        ndigits(t.drop_last())
    }
}

proof fn lemma_span_val_is_seq_val(cs: Seq<char>, j: int, k: int)
    requires
        0 <= j <= k <= cs.len(),
    ensures
        span_val(cs, j, k) == seq_val(cs.subrange(j, k)),
    decreases k - j,
{
    if j < k {
        lemma_span_val_is_seq_val(cs, j, k - 1);
        assert(cs.subrange(j, k).drop_last() =~= cs.subrange(j, k - 1));
        assert(cs.subrange(j, k).last() == cs[k - 1]);
    }
}

proof fn lemma_seq_val_concat(a: Seq<char>, b: Seq<char>)
    ensures
        seq_val(a + b) == seq_val(a) * pow10(ndigits(b)) + seq_val(b),
    decreases b.len(),
{
    if b.len() == 0 {
        assert(a + b =~= a);
    } else {
        lemma_seq_val_concat(a, b.drop_last());
        assert((a + b).drop_last() =~= a + b.drop_last());
        assert((a + b).last() == b.last());
        let x = seq_val(a);
        let p = pow10(ndigits(b.drop_last()));
        if is_digit(b.last()) {
            assert(pow10(ndigits(b)) == 10 * p);
            assert(x * (10 * p) == (x * p) * 10) by (nonlinear_arith);
        }
    }
}

proof fn lemma_seq_val_digits(m: nat)
    ensures
        seq_val(digits_text(m)) == m,
        ndigits(digits_text(m)) == digits_text(m).len(),
    decreases m,
{
    lemma_digits_are_digits(m);
    assert(seq_val(Seq::<char>::empty()) == 0);
    assert(ndigits(Seq::<char>::empty()) == 0);
    if m < 10 {
        assert(digits_text(m).last() == digit_char(m as int));
        assert(digits_text(m).drop_last() =~= Seq::<char>::empty());
    } else {
        lemma_seq_val_digits(m / 10);
        assert(digits_text(m).drop_last() =~= digits_text(m / 10));
        assert(digits_text(m).last() == digit_char((m % 10) as int));
    }
}

proof fn lemma_seq_val_zeros(k: nat)
    ensures
        seq_val(zeros(k)) == 0,
        ndigits(zeros(k)) == k,
    decreases k,
{
    lemma_zeros_are_digits(k);
    assert(seq_val(Seq::<char>::empty()) == 0);
    assert(ndigits(Seq::<char>::empty()) == 0);
    if k > 0 {
        lemma_seq_val_zeros((k - 1) as nat);
        assert(zeros(k).drop_last() =~= zeros((k - 1) as nat));
        assert(zeros(k).last() == '0');
    }
}

/// Counting dots splits over adjacent ranges.
proof fn lemma_count_dots_split(cs: Seq<char>, j: int, p: int, k: int)
    requires
        j <= p <= k,
    ensures
        count_dots(cs, j, k) == count_dots(cs, j, p) + count_dots(cs, p, k),
    decreases k - p,
{
    if p < k {
        lemma_count_dots_split(cs, j, p, k - 1);
    }
}

/// The last dot of a range is the dot nothing follows.
proof fn lemma_dot_pos_at(cs: Seq<char>, j: int, p: int, k: int)
    requires
        j <= p < k,
        cs[p] == '.',
        forall|t: int| p < t < k ==> #[trigger] cs[t] != '.',
    ensures
        dot_pos(cs, j, k) == p,
    decreases k - p,
{
    if p < k - 1 {
        lemma_dot_pos_at(cs, j, p, k - 1);
    }
}


/// The facts the number rule needs about a written decimal with fractional
/// digits, embedded at the front of a longer text.
#[verifier::rlimit(100)]
proof fn lemma_decimal_body(cs: Seq<char>, d: Decimal)
    requires
        d.exponent > 0,
        decimal_text(d).len() <= cs.len(),
        cs.subrange(0, decimal_text(d).len() as int) =~= decimal_text(d),
        decimal_text(d).len() == cs.len() || !is_digit_or_dot(cs[decimal_text(d).len() as int]),
    ensures
        ({
            let sl: int = if d.mantissa < 0 { 1 } else { 0 };
            let ne = decimal_text(d).len() as int;
            &&& span_end(cs, sl) == ne
            &&& count_dots(cs, sl, ne) == 1
            &&& dot_pos(cs, sl, ne) == ne - d.exponent - 1
            &&& span_val(cs, sl, ne) == mag_of(d.mantissa)
            &&& ne - sl >= 2
            &&& (d.mantissa < 0 ==> cs[0] == '-')
            &&& (d.mantissa >= 0 ==> is_digit(cs[0]))
        }),
{
    let m = mag_of(d.mantissa);
    let neg = d.mantissa < 0;
    let sl: int = if neg { 1 } else { 0 };
    let e = d.exponent as nat;
    let ne = decimal_text(d).len() as int;
    lemma_digits_are_digits(m);
    let ds = padded_digits(m, e + 1);
    let l = ds.len() as int;
    lemma_zeros_are_digits((e + 1 - digits_text(m).len()) as nat);
    assert(l >= e + 1);
    assert forall|k: int| 0 <= k < l implies is_digit(#[trigger] ds[k]) && ds[k] != '.' by {
        if digits_text(m).len() >= e + 1 {
            assert(ds[k] == digits_text(m)[k]);
        } else {
            let z = (e + 1 - digits_text(m).len()) as nat;
            if k < z {
                assert(ds[k] == zeros(z)[k]);
            } else {
                assert(ds[k] == digits_text(m)[k - z]);
            }
        }
    }
    let whole = ds.take(l - e);
    let frac = ds.skip(l - e);
    assert(decimal_text(d) =~= (if neg { seq!['-'] } else { Seq::<char>::empty() }) + whole
        + seq!['.'] + frac);
    let dotp = sl + (l - e);
    assert(ne == sl + l + 1);
    assert forall|k: int| 0 <= k < ne implies #[trigger] cs[k] == decimal_text(d)[k] by {
        assert(cs.subrange(0, ne)[k] == cs[k]);
    }
    assert forall|k: int| sl <= k < ne implies is_digit_or_dot(#[trigger] cs[k]) by {
        assert(cs[k] == decimal_text(d)[k]);
        if k < dotp {
            assert(decimal_text(d)[k] == ds[k - sl]);
        } else if k == dotp {
        } else {
            assert(decimal_text(d)[k] == ds[k - sl - 1]);
        }
    }
    assert(decimal_text(d)[dotp] == '.');
    assert(cs[dotp] == '.');
    assert forall|k: int| sl <= k < ne && k != dotp implies #[trigger] cs[k] != '.' by {
        assert(cs[k] == decimal_text(d)[k]);
        if k < dotp {
            assert(decimal_text(d)[k] == ds[k - sl]);
        } else {
            assert(decimal_text(d)[k] == ds[k - sl - 1]);
        }
    }
    lemma_span_end_all(cs, sl, ne);
    lemma_count_dots_split(cs, sl, dotp, ne);
    lemma_count_dots_split(cs, dotp, dotp + 1, ne);
    lemma_count_dots_none(cs, sl, dotp);
    lemma_count_dots_none(cs, dotp + 1, ne);
    assert(count_dots(cs, dotp, dotp) == 0);
    assert(count_dots(cs, sl, ne) == 1);
    lemma_dot_pos_at(cs, sl, dotp, ne);
    lemma_span_val_is_seq_val(cs, sl, ne);
    assert forall|k: int| 0 <= k < ne - sl implies #[trigger] cs.subrange(sl, ne)[k] == (whole
        + (seq!['.'] + frac))[k] by {
        assert(cs.subrange(sl, ne)[k] == cs[k + sl]);
        assert(cs[k + sl] == decimal_text(d)[k + sl]);
    }
    assert(cs.subrange(sl, ne) =~= whole + (seq!['.'] + frac));
    lemma_seq_val_concat(whole, seq!['.'] + frac);
    lemma_seq_val_concat(seq!['.'], frac);
    assert(seq_val(seq!['.']) == 0 && ndigits(seq!['.']) == 0) by {
        assert(seq!['.'].drop_last() =~= Seq::<char>::empty());
        assert(seq_val(Seq::<char>::empty()) == 0);
        assert(ndigits(Seq::<char>::empty()) == 0);
        assert(seq!['.'].last() == '.');
        assert(!is_digit('.'));
    }
    lemma_seq_val_concat(whole, frac);
    assert(whole + frac =~= ds);
    lemma_seq_val_digits(m);
    if digits_text(m).len() >= e + 1 {
        assert(ds =~= digits_text(m));
    } else {
        let z = (e + 1 - digits_text(m).len()) as nat;
        lemma_seq_val_concat(zeros(z), digits_text(m));
        lemma_seq_val_zeros(z);
    }
    assert(seq_val(ds) == m);
    assert(ndigits(frac) == frac.len()) by {
        lemma_ndigits_all(frac);
    }
    assert(ndigits(seq!['.'] + frac) == frac.len()) by {
        lemma_ndigits_concat(seq!['.'], frac);
        lemma_ndigits_all(frac);
    }
    assert(seq_val(seq!['.'] + frac) == seq_val(frac));
    assert(frac.len() == e);
    assert(span_val(cs, sl, ne) == seq_val(whole) * pow10(e) + seq_val(frac));
    assert(seq_val(ds) == seq_val(whole) * pow10(ndigits(frac)) + seq_val(frac));
    if neg {
        assert(cs[0] == decimal_text(d)[0]);
    } else {
        assert(cs[0] == decimal_text(d)[0]);
        assert(decimal_text(d)[0] == ds[0]);
    }
}

/// Every percent literal scans to a single `Percent` token holding the same
/// decimal, then `EOF`.
#[verifier::rlimit(100)]
pub proof fn lemma_scan_percent(d: Decimal)
    requires
        d.exponent <= u32::MAX - 2,
    ensures
        scan_result(percent_text(d)) == Ok::<_, ErrorView>(
            seq![
                ScannedTokenView {
                    tok: TokenView::Percent(d),
                    loc: LocView { line: 0, col: percent_text(d).len() as int },
                },
                ScannedTokenView {
                    tok: TokenView::EOF,
                    loc: LocView { line: 0, col: percent_text(d).len() as int },
                },
            ],
        ),
{
    let cs = percent_text(d);
    let m = mag_of(d.mantissa);
    let neg = d.mantissa < 0;
    let sl: int = if neg { 1 } else { 0 };
    let e = d.exponent as nat;
    lemma_digits_are_digits(m);
    assert(mag_bound(neg) >= m);
    if d.exponent == 0 {
        assert(cs =~= int_text(d.mantissa) + seq!['%']);
        let ne = cs.len() - 1;
        assert(cs.subrange(sl, ne) =~= digits_text(m));
        assert forall|k: int| sl <= k < ne implies is_digit_or_dot(#[trigger] cs[k]) && cs[k]
            != '.' by {
            assert(cs[k] == digits_text(m)[k - sl]);
        }
        assert(cs[ne] == '%');
        lemma_span_end_all(cs, sl, ne);
        lemma_count_dots_none(cs, sl, ne);
        lemma_span_val_digits(cs, sl, ne, m);
        assert(number_spec(cs, 0) == Ok::<_, (ErrorKind, int)>((
            TokenView::Percent(Decimal { mantissa: d.mantissa, exponent: 0 }),
            cs.len() as int,
        )));
    } else {
        assert(cs =~= decimal_text(d) + seq!['%']);
        let ne = cs.len() - 1;
        assert(cs.subrange(0, ne) =~= decimal_text(d));
        assert(!is_digit_or_dot(cs[ne]));
        lemma_decimal_body(cs, d);
        assert(cs[ne] == '%');
        let dotp = ne - d.exponent - 1;
        assert(ne - dotp - 1 == e);
        assert(number_spec(cs, 0) == Ok::<_, (ErrorKind, int)>((
            TokenView::Percent(d),
            cs.len() as int,
        )));
    }
    assert(is_digit(cs[0]) || cs[0] == '-');
    let t = ScannedTokenView {
        tok: TokenView::Percent(d),
        loc: LocView { line: 0, col: cs.len() as int },
    };
    let eof = ScannedTokenView { tok: TokenView::EOF, loc: LocView { line: 0, col: cs.len() as int } };
    assert(clamp_step(0, cs.len() as int, cs.len() as int) == cs.len() as int);
    assert(scan_spec(cs, cs.len() as int, 0, cs.len() as int) == Ok::<_, ErrorView>(seq![eof]));
    assert(scan_spec(cs, 0, 0, 0) == cons_tok(t, scan_spec(cs, cs.len() as int, 0, cs.len() as int)));
    assert(seq![t] + seq![eof] =~= seq![t, eof]);
}

/// A sequence of digits holds as many digits as characters.
proof fn lemma_ndigits_all(t: Seq<char>)
    requires
        forall|k: int| 0 <= k < t.len() ==> is_digit(#[trigger] t[k]),
    ensures
        ndigits(t) == t.len(),
    decreases t.len(),
{
    if t.len() > 0 {
        lemma_ndigits_all(t.drop_last());
    }
}

/// Digit counts add over concatenation.
proof fn lemma_ndigits_concat(a: Seq<char>, b: Seq<char>)
    ensures
        ndigits(a + b) == ndigits(a) + ndigits(b),
    decreases b.len(),
{
    if b.len() == 0 {
        assert(a + b =~= a);
    } else {
        lemma_ndigits_concat(a, b.drop_last());
        assert((a + b).drop_last() =~= a + b.drop_last());
    }
}

/// An identifier a scan can produce: a letter, then letters, digits, dashes.
pub open spec fn valid_ident_text(n: Seq<char>) -> bool {
    n.len() > 0 && is_letter(n[0]) && forall|k: int| 0 <= k < n.len() ==> is_ident_char(
        #[trigger] n[k],
    )
}

/// An atom name a scan can produce: empty, or a letter or dash followed by
/// identifier characters.
pub open spec fn valid_atom_text(n: Seq<char>) -> bool {
    n.len() == 0 || ((is_letter(n[0]) || n[0] == '-') && forall|k: int|
        0 <= k < n.len() ==> is_ident_char(#[trigger] n[k]))
}

/// String content a scan can produce: anything but a double quote.
pub open spec fn valid_string_text(t: Seq<char>) -> bool {
    forall|k: int| 0 <= k < t.len() ==> #[trigger] t[k] != '"'
}

/// A run of identifier characters ends exactly at its last index.
proof fn lemma_ident_end_all(cs: Seq<char>, j: int, k: int)
    requires
        0 <= j <= k <= cs.len(),
        forall|m: int| j <= m < k ==> is_ident_char(#[trigger] cs[m]),
        k == cs.len() || !is_ident_char(cs[k]),
    ensures
        ident_end(cs, j) == k,
    decreases k - j,
{
    if j < k {
        lemma_ident_end_all(cs, j + 1, k);
    }
}

/// A run without quotes ends exactly at the next quote.
proof fn lemma_string_end_all(cs: Seq<char>, j: int, k: int)
    requires
        0 <= j <= k <= cs.len(),
        forall|m: int| j <= m < k ==> #[trigger] cs[m] != '"',
        k == cs.len() || cs[k] == '"',
    ensures
        string_end(cs, j) == k,
    decreases k - j,
{
    if j < k {
        lemma_string_end_all(cs, j + 1, k);
    }
}

/// The written form of a float literal: a decimal, with a trailing point
/// when it has no fractional digits, so that rescanning keeps it a float.
pub open spec fn float_text(d: Decimal) -> Seq<char> {
    if d.exponent == 0 {
        decimal_text(d) + seq!['.']
    } else {
        decimal_text(d)
    }
}

/// May scanning resume here with a fresh token? Holds at the end of the
/// text and at a space or closing paren, the characters a printed list
/// places after a term.
pub open spec fn sep_at(cs: Seq<char>, p: int) -> bool {
    p == cs.len() || cs[p] == ' ' || cs[p] == ')'
}

proof fn lemma_span_end_shift(cs: Seq<char>, i0: int, j: int)
    requires
        0 <= i0 <= j,
        i0 <= cs.len(),
    ensures
        span_end(cs, j) == i0 + span_end(cs.skip(i0), j - i0),
    decreases cs.len() - j,
{
    assert(cs.skip(i0).len() == cs.len() - i0);
    if j < cs.len() {
        assert(cs.skip(i0)[j - i0] == cs[j]);
        if is_digit_or_dot(cs[j]) {
            lemma_span_end_shift(cs, i0, j + 1);
        }
    }
}

proof fn lemma_count_dots_shift(cs: Seq<char>, i0: int, j: int, k: int)
    requires
        0 <= i0 <= j,
        k <= cs.len(),
    ensures
        count_dots(cs, j, k) == count_dots(cs.skip(i0), j - i0, k - i0),
    decreases k - j,
{
    if j < k {
        if k - 1 >= i0 && k - 1 < cs.len() {
            assert(cs.skip(i0)[k - 1 - i0] == cs[k - 1]);
        }
        lemma_count_dots_shift(cs, i0, j, k - 1);
    }
}

proof fn lemma_dot_pos_shift(cs: Seq<char>, i0: int, j: int, k: int)
    requires
        0 <= i0 <= j,
        k <= cs.len(),
    ensures
        dot_pos(cs, j, k) == i0 + dot_pos(cs.skip(i0), j - i0, k - i0),
    decreases k - j,
{
    if j < k {
        assert(cs.skip(i0)[k - 1 - i0] == cs[k - 1]);
        lemma_dot_pos_shift(cs, i0, j, k - 1);
    }
}

proof fn lemma_span_val_shift(cs: Seq<char>, i0: int, j: int, k: int)
    requires
        0 <= i0 <= j,
        k <= cs.len(),
    ensures
        span_val(cs, j, k) == span_val(cs.skip(i0), j - i0, k - i0),
    decreases k - j,
{
    if j < k {
        assert(cs.skip(i0)[k - 1 - i0] == cs[k - 1]);
        lemma_span_val_shift(cs, i0, j, k - 1);
    }
}

/// Scanning a number reads the same token at an offset as at the front of
/// the text's remainder.
proof fn lemma_number_spec_shift(cs: Seq<char>, i: int)
    requires
        0 <= i < cs.len(),
    ensures
        number_spec(cs, i) == match number_spec(cs.skip(i), 0) {
            Ok((t, j)) => Ok::<(TokenView, int), (ErrorKind, int)>((t, j + i)),
            Err((k, j)) => Err((k, j + i)),
        },
{
    let cs2 = cs.skip(i);
    assert(cs2[0] == cs[i]);
    let neg = cs[i] == '-';
    let d0 = if neg { i + 1 } else { i };
    lemma_span_end_shift(cs, i, d0);
    lemma_span_end_bounds(cs, d0);
    let ne = span_end(cs, d0);
    assert(0 <= span_end(cs2, d0 - i) <= cs2.len()) by {
        lemma_span_end_bounds(cs2, d0 - i);
    }
    lemma_count_dots_shift(cs, i, d0, ne);
    lemma_span_val_shift(cs, i, d0, ne);
    lemma_dot_pos_shift(cs, i, d0, ne);
    if ne < cs.len() {
        assert(cs2[ne - i] == cs[ne]);
    }
}

/// A span end stays inside the text.
proof fn lemma_span_end_bounds(cs: Seq<char>, j: int)
    requires
        0 <= j <= cs.len(),
    ensures
        j <= span_end(cs, j) <= cs.len(),
    decreases cs.len() - j,
{
    if j < cs.len() && is_digit_or_dot(cs[j]) {
        lemma_span_end_bounds(cs, j + 1);
    }
}

/// An integer literal embedded at `i`, followed by a separator, scans to
/// its token in front of the scan of the rest.
pub proof fn lemma_scan_integer_at(cs: Seq<char>, i: int, line: int, col: int, n: i64)
    requires
        0 <= i,
        i + int_text(n).len() <= cs.len(),
        cs.subrange(i, i + int_text(n).len() as int) =~= int_text(n),
        sep_at(cs, i + int_text(n).len() as int),
    ensures
        scan_spec(cs, i, line, col) == cons_tok(
            ScannedTokenView {
                tok: TokenView::Integer(n),
                loc: LocView { line, col: col + int_text(n).len() },
            },
            scan_spec(cs, i + int_text(n).len() as int, line, col + int_text(n).len()),
        ),
{
    let txt = int_text(n);
    let ll = txt.len() as int;
    let m = mag_of(n);
    lemma_digits_are_digits(m);
    let neg = n < 0;
    let d0: int = if neg { i + 1 } else { i };
    assert(cs[i] == txt[0]) by {
        assert(cs.subrange(i, i + ll)[0] == cs[i]);
    }
    assert forall|t: int| 0 <= t < i + ll - d0 implies #[trigger] cs.subrange(d0, i + ll)[t]
        == digits_text(m)[t] by {
        assert(cs.subrange(d0, i + ll)[t] == cs[d0 + t]);
        assert(cs.subrange(i, i + ll)[d0 - i + t] == cs[d0 + t]);
    }
    assert(cs.subrange(d0, i + ll) =~= digits_text(m));
    assert(cs[i] == '-' <==> neg);
    assert forall|k: int| d0 <= k < i + ll implies is_digit_or_dot(#[trigger] cs[k]) && cs[k]
        != '.' by {
        assert(cs[k] == digits_text(m)[k - d0]);
    }
    assert(i + ll == cs.len() || !is_digit_or_dot(cs[i + ll]));
    lemma_span_end_all(cs, d0, i + ll);
    lemma_count_dots_none(cs, d0, i + ll);
    lemma_span_val_digits(cs, d0, i + ll, m);
    assert(m <= mag_bound(neg));
    assert(i + ll == cs.len() || cs[i + ll] != '%');
    assert(number_spec(cs, i) == Ok::<_, (ErrorKind, int)>((TokenView::Integer(n), i + ll)));
    assert(is_digit(cs[i]) || cs[i] == '-');
    assert(clamp_step(i, i + ll, cs.len() as int) == i + ll);
}

/// A percent literal embedded at `i`, followed by a separator, scans to its
/// token in front of the scan of the rest.
pub proof fn lemma_scan_percent_at(cs: Seq<char>, i: int, line: int, col: int, d: Decimal)
    requires
        d.exponent <= u32::MAX - 2,
        0 <= i,
        i + percent_text(d).len() <= cs.len(),
        cs.subrange(i, i + percent_text(d).len() as int) =~= percent_text(d),
        sep_at(cs, i + percent_text(d).len() as int),
    ensures
        scan_spec(cs, i, line, col) == cons_tok(
            ScannedTokenView {
                tok: TokenView::Percent(d),
                loc: LocView { line, col: col + percent_text(d).len() },
            },
            scan_spec(cs, i + percent_text(d).len() as int, line, col + percent_text(d).len()),
        ),
{
    let txt = percent_text(d);
    let ll = txt.len() as int;
    let cs2 = cs.skip(i);
    assert forall|t: int| 0 <= t < ll implies #[trigger] cs2[t] == txt[t] by {
        assert(cs.subrange(i, i + ll)[t] == cs[i + t]);
        assert(cs2[t] == cs[i + t]);
    }
    assert(cs2.subrange(0, ll) =~= txt);
    assert(sep_at(cs2, ll)) by {
        if i + ll < cs.len() {
            assert(cs2[ll] == cs[i + ll]);
        }
    }
    lemma_number_spec_front_percent(cs2, d);
    lemma_number_spec_shift(cs, i);
    assert(cs[i] == cs2[0]);
    assert(is_digit(cs[i]) || cs[i] == '-');
    assert(number_spec(cs, i) == Ok::<_, (ErrorKind, int)>((TokenView::Percent(d), i + ll)));
    assert(clamp_step(i, i + ll, cs.len() as int) == i + ll);
}

/// A float literal embedded at `i`, followed by a separator, scans to its
/// token in front of the scan of the rest.
pub proof fn lemma_scan_float_at(cs: Seq<char>, i: int, line: int, col: int, d: Decimal)
    requires
        d.exponent <= u32::MAX - 2,
        0 <= i,
        i + float_text(d).len() <= cs.len(),
        cs.subrange(i, i + float_text(d).len() as int) =~= float_text(d),
        sep_at(cs, i + float_text(d).len() as int),
    ensures
        scan_spec(cs, i, line, col) == cons_tok(
            ScannedTokenView {
                tok: TokenView::Number(d),
                loc: LocView { line, col: col + float_text(d).len() },
            },
            scan_spec(cs, i + float_text(d).len() as int, line, col + float_text(d).len()),
        ),
{
    let txt = float_text(d);
    let ll = txt.len() as int;
    let cs2 = cs.skip(i);
    assert forall|t: int| 0 <= t < ll implies #[trigger] cs2[t] == txt[t] by {
        assert(cs.subrange(i, i + ll)[t] == cs[i + t]);
        assert(cs2[t] == cs[i + t]);
    }
    assert(cs2.subrange(0, ll) =~= txt);
    assert(sep_at(cs2, ll)) by {
        if i + ll < cs.len() {
            assert(cs2[ll] == cs[i + ll]);
        }
    }
    lemma_number_spec_front_float(cs2, d);
    lemma_number_spec_shift(cs, i);
    assert(cs[i] == cs2[0]);
    assert(is_digit(cs[i]) || cs[i] == '-');
    assert(number_spec(cs, i) == Ok::<_, (ErrorKind, int)>((TokenView::Number(d), i + ll)));
    assert(clamp_step(i, i + ll, cs.len() as int) == i + ll);
}

/// The number rule on a text that starts with a written percent literal and
/// continues with a separator.
#[verifier::rlimit(100)]
proof fn lemma_number_spec_front_percent(cs: Seq<char>, d: Decimal)
    requires
        d.exponent <= u32::MAX - 2,
        percent_text(d).len() <= cs.len(),
        cs.subrange(0, percent_text(d).len() as int) =~= percent_text(d),
        sep_at(cs, percent_text(d).len() as int),
    ensures
        number_spec(cs, 0) == Ok::<_, (ErrorKind, int)>((
            TokenView::Percent(d),
            percent_text(d).len() as int,
        )),
        is_digit(cs[0]) || cs[0] == '-',
{
    if d.exponent == 0 {
        lemma_number_front_percent_whole(cs, d);
    } else {
        lemma_number_front_percent_frac(cs, d);
    }
}

#[verifier::rlimit(100)]
proof fn lemma_number_front_percent_whole(cs: Seq<char>, d: Decimal)
    requires
        d.exponent == 0,
        d.exponent <= u32::MAX - 2,
        percent_text(d).len() <= cs.len(),
        cs.subrange(0, percent_text(d).len() as int) =~= percent_text(d),
        sep_at(cs, percent_text(d).len() as int),
    ensures
        number_spec(cs, 0) == Ok::<_, (ErrorKind, int)>((
            TokenView::Percent(d),
            percent_text(d).len() as int,
        )),
        is_digit(cs[0]) || cs[0] == '-',
{
    let txt = percent_text(d);
    let ll = txt.len() as int;
    let m = mag_of(d.mantissa);
    let neg = d.mantissa < 0;
    let sl: int = if neg { 1 } else { 0 };
    lemma_digits_are_digits(m);
    assert(mag_bound(neg) >= m);
    assert forall|t: int| 0 <= t < ll implies #[trigger] cs[t] == txt[t] by {
        assert(cs.subrange(0, ll)[t] == cs[t]);
    }
    let ne = ll - 1;
    assert(cs[ne] == '%');
    assert forall|k: int| 0 <= k < ne - sl implies #[trigger] cs.subrange(sl, ne)[k]
            == digits_text(m)[k] by {
        assert(cs.subrange(sl, ne)[k] == cs[sl + k]);
    }
    assert(cs.subrange(sl, ne) =~= digits_text(m));
    assert forall|k: int| sl <= k < ne implies is_digit_or_dot(#[trigger] cs[k]) && cs[k]
        != '.' by {
        assert(cs[k] == digits_text(m)[k - sl]);
    }
    lemma_span_end_all(cs, sl, ne);
    lemma_count_dots_none(cs, sl, ne);
    lemma_span_val_digits(cs, sl, ne, m);
}

#[verifier::rlimit(100)]
proof fn lemma_number_front_percent_frac(cs: Seq<char>, d: Decimal)
    requires
        d.exponent > 0,
        d.exponent <= u32::MAX - 2,
        percent_text(d).len() <= cs.len(),
        cs.subrange(0, percent_text(d).len() as int) =~= percent_text(d),
        sep_at(cs, percent_text(d).len() as int),
    ensures
        number_spec(cs, 0) == Ok::<_, (ErrorKind, int)>((
            TokenView::Percent(d),
            percent_text(d).len() as int,
        )),
        is_digit(cs[0]) || cs[0] == '-',
{
    let txt = percent_text(d);
    let ll = txt.len() as int;
    let m = mag_of(d.mantissa);
    let neg = d.mantissa < 0;
    let sl: int = if neg { 1 } else { 0 };
    lemma_digits_are_digits(m);
    assert(mag_bound(neg) >= m);
    assert forall|t: int| 0 <= t < ll implies #[trigger] cs[t] == txt[t] by {
        assert(cs.subrange(0, ll)[t] == cs[t]);
    }
    let ne = ll - 1;
    assert(cs[ne] == '%');
    assert forall|k: int| 0 <= k < ne implies #[trigger] cs[k] == decimal_text(d)[k] by {
        assert(txt[k] == decimal_text(d)[k]);
    }
    assert(cs.subrange(0, ne) =~= decimal_text(d));
    assert(!is_digit_or_dot(cs[ne]));
    lemma_decimal_body(cs, d);
}

/// The number rule on a text that starts with a written float literal and
/// continues with a separator.
#[verifier::rlimit(100)]
proof fn lemma_number_spec_front_float(cs: Seq<char>, d: Decimal)
    requires
        d.exponent <= u32::MAX - 2,
        float_text(d).len() <= cs.len(),
        cs.subrange(0, float_text(d).len() as int) =~= float_text(d),
        sep_at(cs, float_text(d).len() as int),
    ensures
        number_spec(cs, 0) == Ok::<_, (ErrorKind, int)>((
            TokenView::Number(d),
            float_text(d).len() as int,
        )),
        is_digit(cs[0]) || cs[0] == '-',
{
    let txt = float_text(d);
    let ll = txt.len() as int;
    let m = mag_of(d.mantissa);
    let neg = d.mantissa < 0;
    let sl: int = if neg { 1 } else { 0 };
    lemma_digits_are_digits(m);
    assert(mag_bound(neg) >= m);
    assert forall|t: int| 0 <= t < ll implies #[trigger] cs[t] == txt[t] by {
        assert(cs.subrange(0, ll)[t] == cs[t]);
    }
    let ne = ll;
    assert(ne == cs.len() || !is_digit_or_dot(cs[ne]) && cs[ne] != '%');
    if d.exponent == 0 {
        let dotp = ne - 1;
        assert(cs[dotp] == '.');
        assert forall|k: int| sl <= k < ne implies is_digit_or_dot(#[trigger] cs[k]) by {
            if k < dotp {
                assert(cs[k] == digits_text(m)[k - sl]);
            }
        }
        assert forall|k: int| sl <= k < ne && k != dotp implies #[trigger] cs[k] != '.' by {
            assert(cs[k] == digits_text(m)[k - sl]);
        }
        lemma_span_end_all(cs, sl, ne);
        lemma_count_dots_split(cs, sl, dotp, ne);
        lemma_count_dots_none(cs, sl, dotp);
        assert(count_dots(cs, dotp, dotp) == 0);
        assert(count_dots(cs, sl, ne) == 1);
        lemma_dot_pos_at(cs, sl, dotp, ne);
        lemma_span_val_is_seq_val(cs, sl, ne);
        assert forall|k: int| 0 <= k < ne - sl implies #[trigger] cs.subrange(sl, ne)[k]
            == (digits_text(m) + seq!['.'])[k] by {
            assert(cs.subrange(sl, ne)[k] == cs[sl + k]);
        }
        assert(cs.subrange(sl, ne) =~= digits_text(m) + seq!['.']);
        lemma_seq_val_digits(m);
        assert(seq_val(digits_text(m) + seq!['.']) == seq_val(
            (digits_text(m) + seq!['.']).drop_last(),
        ));
        assert((digits_text(m) + seq!['.']).drop_last() =~= digits_text(m));
        assert(span_val(cs, sl, ne) == m);
        assert(ne - dotp - 1 == 0);
        assert(ne - sl >= 2);
    } else {
        assert forall|k: int| 0 <= k < ne implies #[trigger] cs[k] == decimal_text(d)[k] by {
            assert(txt[k] == decimal_text(d)[k]);
        }
        assert(cs.subrange(0, ne) =~= decimal_text(d));
        lemma_decimal_body(cs, d);
    }
}

/// An identifier embedded at `i`, followed by a separator, scans to its
/// token in front of the scan of the rest.
pub proof fn lemma_scan_ident_at(cs: Seq<char>, i: int, line: int, col: int, n: Seq<char>)
    requires
        valid_ident_text(n),
        0 <= i,
        i + n.len() <= cs.len(),
        cs.subrange(i, i + n.len() as int) =~= n,
        sep_at(cs, i + n.len() as int),
    ensures
        scan_spec(cs, i, line, col) == cons_tok(
            ScannedTokenView { tok: TokenView::Ident(n), loc: LocView { line, col: col + n.len() } },
            scan_spec(cs, i + n.len() as int, line, col + n.len()),
        ),
{
    let ll = n.len() as int;
    assert forall|t: int| 0 <= t < ll implies #[trigger] cs[i + t] == n[t] by {
        assert(cs.subrange(i, i + ll)[t] == cs[i + t]);
    }
    assert(cs[i + 0] == n[0]);
    assert(is_letter(cs[i]));
    assert(!is_digit(cs[i]) && cs[i] != '-');
    assert forall|m: int| i + 1 <= m < i + ll implies is_ident_char(#[trigger] cs[m]) by {
        assert(cs[i + (m - i)] == n[m - i]);
    }
    lemma_ident_end_all(cs, i + 1, i + ll);
    assert(cs.subrange(i, i + ll) =~= n);
    assert(clamp_step(i, i + ll, cs.len() as int) == i + ll);
}

/// An atom embedded at `i`, written with its colon, followed by a
/// separator, scans to its token in front of the scan of the rest.
pub proof fn lemma_scan_atom_at(cs: Seq<char>, i: int, line: int, col: int, n: Seq<char>)
    requires
        valid_atom_text(n),
        0 <= i,
        i + n.len() + 1 <= cs.len(),
        cs.subrange(i, i + n.len() + 1 as int) =~= seq![':'] + n,
        sep_at(cs, i + n.len() + 1 as int),
    ensures
        scan_spec(cs, i, line, col) == cons_tok(
            ScannedTokenView {
                tok: TokenView::Atom(n),
                loc: LocView { line, col: col + n.len() + 1 },
            },
            scan_spec(cs, i + n.len() + 1 as int, line, col + n.len() + 1),
        ),
{
    let ll = n.len() + 1 as int;
    assert forall|t: int| 0 <= t < ll implies #[trigger] cs[i + t] == (seq![':'] + n)[t] by {
        assert(cs.subrange(i, i + ll)[t] == cs[i + t]);
    }
    assert(cs[i + 0] == ':');
    assert(cs[i] == ':');
    assert(!is_digit(cs[i]) && cs[i] != '-' && !is_letter(cs[i]));
    if n.len() == 0 {
        assert(i + 1 == cs.len() || !(is_letter(cs[i + 1]) || cs[i + 1] == '-'));
        assert(cs.subrange(i + 1, i + 1) =~= n);
    } else {
        assert(cs[i + 1] == n[0]);
        assert(is_letter(cs[i + 1]) || cs[i + 1] == '-');
        assert forall|m: int| i + 2 <= m < i + ll implies is_ident_char(#[trigger] cs[m]) by {
            assert(cs[i + (m - i)] == (seq![':'] + n)[m - i]);
        }
        lemma_ident_end_all(cs, i + 2, i + ll);
        assert forall|t: int| 0 <= t < n.len() implies #[trigger] cs.subrange(i + 1, i + ll)[t]
            == n[t] by {
            assert(cs.subrange(i + 1, i + ll)[t] == cs[i + 1 + t]);
            assert(cs[i + (1 + t)] == (seq![':'] + n)[1 + t]);
        }
        assert(cs.subrange(i + 1, i + ll) =~= n);
    }
    assert(clamp_step(i, i + ll, cs.len() as int) == i + ll);
}

/// A string body embedded at `i`, written inside quotes, scans to its token
/// in front of the scan of the rest.
pub proof fn lemma_scan_string_at(cs: Seq<char>, i: int, line: int, col: int, t: Seq<char>)
    requires
        valid_string_text(t),
        0 <= i,
        i + t.len() + 2 <= cs.len(),
        cs.subrange(i, i + t.len() + 2 as int) =~= seq!['"'] + t + seq!['"'],
    ensures
        scan_spec(cs, i, line, col) == cons_tok(
            ScannedTokenView {
                tok: TokenView::StringLit(t),
                loc: LocView { line, col: col + t.len() + 2 },
            },
            scan_spec(cs, i + t.len() + 2 as int, line, col + t.len() + 2),
        ),
{
    let ll = t.len() + 2 as int;
    let txt = seq!['"'] + t + seq!['"'];
    assert forall|k: int| 0 <= k < ll implies #[trigger] cs[i + k] == txt[k] by {
        assert(cs.subrange(i, i + ll)[k] == cs[i + k]);
    }
    assert(cs[i + 0] == '"');
    assert(cs[i] == '"');
    assert(!is_digit(cs[i]) && cs[i] != '-' && !is_letter(cs[i]) && cs[i] != ':');
    assert forall|m: int| i + 1 <= m < i + ll - 1 implies #[trigger] cs[m] != '"' by {
        assert(cs[i + (m - i)] == txt[m - i]);
    }
    assert(cs[i + (ll - 1)] == txt[ll - 1]);
    assert(cs[i + ll - 1] == '"');
    lemma_string_end_all(cs, i + 1, i + ll - 1);
    assert forall|k: int| 0 <= k < t.len() implies #[trigger] cs.subrange(i + 1, i + ll - 1)[k]
        == t[k] by {
        assert(cs.subrange(i + 1, i + ll - 1)[k] == cs[i + 1 + k]);
        assert(cs[i + (1 + k)] == txt[1 + k]);
    }
    assert(cs.subrange(i + 1, i + ll - 1) =~= t);
    assert(clamp_step(i, i + ll, cs.len() as int) == i + ll);
}

} // verus!
