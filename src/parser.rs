use vstd::prelude::*;
use crate::ast::{Expr, Term, render_term, size};
use crate::text::{alphabetic, alphanumeric, is_white_space, chars_of, char_is_whitespace, char_is_alphanumeric, char_is_alphabetic};
use crate::utils::valid_ident;

verus! {

/// What went wrong where a parse failed.
#[derive(Debug, Clone, Copy, PartialEq, Eq, Structural)]
pub enum ParseErrorKind {
    /// A character that no rule of the grammar accepts here.
    UnexpectedChar(char),
    /// The input ended where an expression was expected.
    UnexpectedEnd,
    /// A binder's parameter is not followed by `.`.
    ExpectedDot,
    /// A parenthesized expression is not closed by `)`.
    ExpectedCloseParen,
    /// A binder is not followed by a variable name.
    ExpectedName,
}

/// A syntax error: its kind and the 0-based character position where it was found.
#[derive(Debug, Clone, Copy, PartialEq, Eq, Structural)]
pub struct ParseError {
    pub kind: ParseErrorKind,
    pub position: usize,
}

pub open spec fn error_at(kind: ParseErrorKind, i: int) -> ParseError {
    ParseError { kind, position: i as usize }
}

/// Characters that may appear in a variable name after its first.
pub open spec fn is_name_char(c: char) -> bool {
    alphanumeric(c) || c == '_'
}

/// Characters that may begin a variable name: a letter or `_`.
pub open spec fn is_name_start(c: char) -> bool {
    alphabetic(c) || c == '_'
}

/// The first position at or after `i` that does not hold white space.
pub open spec fn skip_ws(s: Seq<char>, i: int) -> int
    decreases s.len() - i,
{
    if 0 <= i < s.len() && is_white_space(s[i]) {
        skip_ws(s, i + 1)
    } else {
        i
    }
}

/// The first position at or after `i` that does not hold a name character.
pub open spec fn name_end(s: Seq<char>, i: int) -> int
    decreases s.len() - i,
{
    if 0 <= i < s.len() && is_name_char(s[i]) {
        name_end(s, i + 1)
    } else {
        i
    }
}

pub proof fn lemma_skip_ws(s: Seq<char>, i: int)
    requires
        0 <= i <= s.len(),
    ensures
        i <= skip_ws(s, i) <= s.len(),
        skip_ws(s, i) < s.len() ==> !is_white_space(s[skip_ws(s, i)]),
        skip_ws(s, skip_ws(s, i)) == skip_ws(s, i),
    decreases s.len() - i,
{
    if i < s.len() && is_white_space(s[i]) {
        lemma_skip_ws(s, i + 1);
    }
}

pub proof fn lemma_name_end(s: Seq<char>, i: int)
    requires
        0 <= i <= s.len(),
    ensures
        i <= name_end(s, i) <= s.len(),
        name_end(s, i) < s.len() ==> !is_name_char(s[name_end(s, i)]),
        forall|k: int| i <= k < name_end(s, i) ==> is_name_char(#[trigger] s[k]),
    decreases s.len() - i,
{
    if i < s.len() && is_name_char(s[i]) {
        lemma_name_end(s, i + 1);
    }
}

/// `varname := (letter | '_') (letter | digit | '_')*` at `i`, and the position
/// after it.
pub open spec fn name_at(s: Seq<char>, i: int) -> Result<(Seq<char>, int), ParseError> {
    if 0 <= i < s.len() && is_name_start(s[i]) {
        let m = name_end(s, i + 1);
        Ok((s.subrange(i, m), m))
    } else {
        Err(error_at(ParseErrorKind::ExpectedName, i))
    }
}

pub proof fn lemma_name_at(s: Seq<char>, i: int)
    requires
        0 <= i <= s.len(),
    ensures
        name_at(s, i) matches Ok((n, m)) ==> i < m <= s.len(),
{
    if i < s.len() {
        lemma_name_end(s, i + 1);
    }
}

/// `lambda := ('\' | 'λ') name '.' lambda | application`, read from position `i`:
/// the term and the position after it.
pub open spec fn lambda_at(s: Seq<char>, i: int) -> Result<(Term, int), ParseError>
    decreases s.len() - i, 3int,
    when 0 <= i <= s.len()
{
    let j = skip_ws(s, i);
    proof {
        lemma_skip_ws(s, i);
    }
    if j < s.len() && (s[j] == '\\' || s[j] == 'λ') {
        let k = skip_ws(s, j + 1);
        proof {
            lemma_skip_ws(s, j + 1);
        }
        match name_at(s, k) {
            Err(e) => Err(e),
            Ok((name, m)) => {
                let d = skip_ws(s, m);
                proof {
                    lemma_name_at(s, k);
                    lemma_skip_ws(s, m);
                }
                if d < s.len() && s[d] == '.' {
                    match lambda_at(s, d + 1) {
                        Ok((body, e)) => Ok((Term::Abs(name, Box::new(body)), e)),
                        Err(x) => Err(x),
                    }
                } else {
                    Err(error_at(ParseErrorKind::ExpectedDot, d))
                }
            },
        }
    } else {
        app_at(s, j)
    }
}

/// `application := atom atom*`, left-associative, read from position `i`.
pub open spec fn app_at(s: Seq<char>, i: int) -> Result<(Term, int), ParseError>
    decreases s.len() - i, 2int,
    when 0 <= i <= s.len()
{
    let j = skip_ws(s, i);
    proof {
        lemma_skip_ws(s, i);
    }
    match atom_at(s, j) {
        Err(e) => Err(e),
        // an atom always consumes input; the bound only keeps the recursion visibly finite
        Ok((a, k)) => if j < k <= s.len() {
            app_rest(s, a, k)
        } else {
            Ok((a, k))
        },
    }
}

/// The atoms that follow `acc` from position `i`, applied to it in turn; the
/// sequence stops at the end of the input, at `)` or at `.`.
pub open spec fn app_rest(s: Seq<char>, acc: Term, i: int) -> Result<(Term, int), ParseError>
    decreases s.len() - i, 1int,
    when 0 <= i <= s.len()
{
    let j = skip_ws(s, i);
    proof {
        lemma_skip_ws(s, i);
    }
    if j >= s.len() || s[j] == ')' || s[j] == '.' {
        Ok((acc, j))
    } else {
        match atom_at(s, j) {
            Err(e) => Err(e),
            Ok((a, k)) => if j < k <= s.len() {
                app_rest(s, Term::App(Box::new(acc), Box::new(a)), k)
            } else {
                Ok((Term::App(Box::new(acc), Box::new(a)), k))
            },
        }
    }
}

/// `atom := '(' expr ')' | name`, read from position `i`.
pub open spec fn atom_at(s: Seq<char>, i: int) -> Result<(Term, int), ParseError>
    decreases s.len() - i, 0int,
    when 0 <= i <= s.len()
{
    let j = skip_ws(s, i);
    proof {
        lemma_skip_ws(s, i);
    }
    if j < s.len() && s[j] == '(' {
        match lambda_at(s, j + 1) {
            Err(e) => Err(e),
            Ok((e, m)) => {
                let d = skip_ws(s, m);
                if d < s.len() && s[d] == ')' {
                    Ok((e, d + 1))
                } else {
                    Err(error_at(ParseErrorKind::ExpectedCloseParen, d))
                }
            },
        }
    } else if j < s.len() && is_name_start(s[j]) {
        let m = name_end(s, j + 1);
        Ok((Term::Var(s.subrange(j, m)), m))
    } else if j < s.len() {
        Err(error_at(ParseErrorKind::UnexpectedChar(s[j]), j))
    } else {
        Err(error_at(ParseErrorKind::UnexpectedEnd, j))
    }
}

/// A whole expression read from position `i`, with nothing but white space after it.
pub open spec fn parse_from(s: Seq<char>, i: int) -> Result<Term, ParseError> {
    match lambda_at(s, skip_ws(s, i)) {
        Err(e) => Err(e),
        Ok((t, k)) => {
            let d = skip_ws(s, k);
            if d < s.len() {
                Err(error_at(ParseErrorKind::UnexpectedChar(s[d]), d))
            } else {
                Ok(t)
            }
        },
    }
}

/// The meaning of a whole input text.
pub open spec fn parse_text(s: Seq<char>) -> Result<Term, ParseError> {
    parse_from(s, 0)
}

pub open spec fn result_view(r: Result<Expr, ParseError>) -> Result<Term, ParseError> {
    match r {
        Ok(e) => Ok(e@),
        Err(x) => Err(x),
    }
}

/// An executable result agrees with a specified one that ends at `end`.
pub open spec fn agrees(r: Result<Expr, ParseError>, p: Result<(Term, int), ParseError>, end: int) -> bool {
    match p {
        Ok((t, k)) => r matches Ok(e) && e@ == t && end == k,
        Err(x) => r == Err::<Expr, ParseError>(x),
    }
}

pub open spec fn peek_at(s: Seq<char>, i: int) -> Option<char> {
    if 0 <= i < s.len() {
        Some(s[i])
    } else {
        None
    }
}

fn is_name_start_exec(c: char) -> (r: bool)
    ensures
        r == is_name_start(c),
{
    char_is_alphabetic(c) || c == '_'
}

fn is_name_char_exec(c: char) -> (r: bool)
    ensures
        r == is_name_char(c),
{
    char_is_alphanumeric(c) || c == '_'
}

/// A simple recursive descent parser for lambda calculus expressions.
pub struct Parser {
    text: String,
    input: Vec<char>,
    pos: usize,
}

impl Parser {
    /// The characters being parsed.
    pub closed spec fn chars(&self) -> Seq<char> {
        self.input@
    }

    /// The position of the next character to read.
    pub closed spec fn pos(&self) -> int {
        self.pos as int
    }

    pub closed spec fn wf(&self) -> bool {
        &&& self.text@ == self.input@
        &&& self.pos <= self.input@.len()
    }

    /// Create a new parser for the given input string.
    pub fn new(s: &str) -> (r: Self)
        ensures
            r.wf(),
            r.chars() == s@,
            r.pos() == 0,
    {
        Parser { text: String::from_str(s), input: chars_of(s), pos: 0 }
    }

    fn peek(&self) -> (r: Option<char>)
        requires
            self.wf(),
        ensures
            r == peek_at(self.input@, self.pos as int),
    {
        if self.pos < self.input.len() {
            Some(self.input[self.pos])
        } else {
            None
        }
    }

    fn next(&mut self) -> (r: Option<char>)
        requires
            old(self).wf(),
        ensures
            final(self).wf(),
            final(self).input@ == old(self).input@,
            r == peek_at(old(self).input@, old(self).pos as int),
            final(self).pos == if r is Some { old(self).pos + 1 } else { old(self).pos as int },
    {
        if self.pos < self.input.len() {
            let c = self.input[self.pos];
            self.pos = self.pos + 1;
            Some(c)
        } else {
            None
        }
    }

    fn skip_ws(&mut self)
        requires
            old(self).wf(),
        ensures
            final(self).wf(),
            final(self).input@ == old(self).input@,
            final(self).pos == skip_ws(old(self).input@, old(self).pos as int),
            old(self).pos <= final(self).pos,
    {
        let ghost s = self.input@;
        let ghost i0 = self.pos as int;
        loop
            invariant
                self.wf(),
                self.input@ == s,
                skip_ws(s, self.pos as int) == skip_ws(s, i0),
                i0 <= self.pos,
            ensures
                self.wf(),
                self.input@ == s,
                self.pos == skip_ws(s, i0),
                i0 <= self.pos,
            decreases s.len() - self.pos,
        {
            match self.peek() {
                Some(ch) => {
                    if char_is_whitespace(ch) {
                        self.next();
                    } else {
                        break;
                    }
                },
                None => break,
            }
        }
    }

    /// Parse the full input into an Expr, or report the first syntax error.
    pub fn parse(&mut self) -> (r: Result<Expr, ParseError>)
        requires
            old(self).wf(),
        ensures
            result_view(r) == parse_from(old(self).chars(), old(self).pos()),
    {
        self.skip_ws();
        let expr = match self.parse_expr() {
            Ok(e) => e,
            Err(e) => return Err(e),
        };
        self.skip_ws();
        if self.pos != self.input.len() {
            return Err(ParseError { kind: ParseErrorKind::UnexpectedChar(self.input[self.pos]), position: self.pos });
        }
        Ok(expr)
    }

    fn parse_expr(&mut self) -> (r: Result<Expr, ParseError>)
        requires
            old(self).wf(),
        ensures
            old(self).pos <= final(self).pos,
            final(self).wf(),
            final(self).input@ == old(self).input@,
            agrees(r, lambda_at(old(self).input@, old(self).pos as int), final(self).pos as int),
        decreases old(self).input@.len() - old(self).pos, 4int,
    {
        self.parse_lambda()
    }

    fn parse_lambda(&mut self) -> (r: Result<Expr, ParseError>)
        requires
            old(self).wf(),
        ensures
            old(self).pos <= final(self).pos,
            final(self).wf(),
            final(self).input@ == old(self).input@,
            agrees(r, lambda_at(old(self).input@, old(self).pos as int), final(self).pos as int),
        decreases old(self).input@.len() - old(self).pos, 3int,
    {
        let ghost s = self.input@;
        let ghost i0 = self.pos as int;
        self.skip_ws();
        proof {
            lemma_skip_ws(s, i0);
        }
        if let Some(ch) = self.peek() {
            if ch == '\\' || ch == 'λ' {
                self.next();
                self.skip_ws();
                proof {
                    lemma_skip_ws(s, skip_ws(s, i0) + 1);
                }
                let ghost k = self.pos as int;
                proof {
                    lemma_name_at(s, k);
                }
                let var = match self.parse_var_name() {
                    Ok(v) => v,
                    Err(e) => return Err(e),
                };
                let ghost m = self.pos as int;
                self.skip_ws();
                proof {
                    lemma_skip_ws(s, m);
                }
                let dot_pos = self.pos;
                match self.next() {
                    Some('.') => {},
                    _ => {
                        return Err(ParseError { kind: ParseErrorKind::ExpectedDot, position: dot_pos });
                    },
                }
                let body = match self.parse_lambda() {
                    Ok(b) => b,
                    Err(e) => return Err(e),
                };
                return Ok(Expr::Abs(var, Box::new(body)));
            }
        }
        self.parse_app()
    }

    fn parse_app(&mut self) -> (r: Result<Expr, ParseError>)
        requires
            old(self).wf(),
        ensures
            old(self).pos <= final(self).pos,
            final(self).wf(),
            final(self).input@ == old(self).input@,
            agrees(r, app_at(old(self).input@, old(self).pos as int), final(self).pos as int),
        decreases old(self).input@.len() - old(self).pos, 2int,
    {
        let ghost s = self.input@;
        let ghost i0 = self.pos as int;
        self.skip_ws();
        proof {
            lemma_skip_ws(s, i0);
        }
        let mut expr = match self.parse_atom() {
            Ok(a) => a,
            Err(e) => return Err(e),
        };
        loop
            invariant
                self.wf(),
                self.input@ == s,
                s == old(self).input@,
                i0 == old(self).pos,
                i0 < self.pos,
                app_at(s, i0) == app_rest(s, expr@, self.pos as int),
            ensures
                self.wf(),
                self.input@ == s,
                app_at(s, i0) == Ok::<(Term, int), ParseError>((expr@, self.pos as int)),
            decreases s.len() - self.pos,
        {
            let ghost p0 = self.pos as int;
            self.skip_ws();
            proof {
                lemma_skip_ws(s, p0);
            }
            match self.peek() {
                Some(ch) => {
                    if ch == ')' || ch == '.' {
                        break;
                    }
                    let atom = match self.parse_atom() {
                        Ok(a) => a,
                        Err(e) => return Err(e),
                    };
                    expr = Expr::App(Box::new(expr), Box::new(atom));
                },
                None => break,
            }
        }
        Ok(expr)
    }

    fn parse_atom(&mut self) -> (r: Result<Expr, ParseError>)
        requires
            old(self).wf(),
        ensures
            old(self).pos <= final(self).pos,
            final(self).wf(),
            final(self).input@ == old(self).input@,
            agrees(r, atom_at(old(self).input@, old(self).pos as int), final(self).pos as int),
            r is Ok ==> final(self).pos > old(self).pos,
        decreases old(self).input@.len() - old(self).pos, 0int,
    {
        let ghost s = self.input@;
        let ghost i0 = self.pos as int;
        self.skip_ws();
        proof {
            lemma_skip_ws(s, i0);
        }
        match self.peek() {
            Some('(') => {
                self.next();
                let expr = match self.parse_expr() {
                    Ok(e) => e,
                    Err(e) => return Err(e),
                };
                self.skip_ws();
                let close_pos = self.pos;
                match self.next() {
                    Some(')') => Ok(expr),
                    _ => Err(ParseError { kind: ParseErrorKind::ExpectedCloseParen, position: close_pos }),
                }
            },
            Some(ch) => {
                if is_name_start_exec(ch) {
                    proof {
                        lemma_name_end(s, self.pos + 1);
                    }
                    match self.parse_var_name() {
                        Ok(name) => Ok(Expr::Var(name)),
                        Err(e) => Err(e),
                    }
                } else {
                    Err(ParseError { kind: ParseErrorKind::UnexpectedChar(ch), position: self.pos })
                }
            },
            None => Err(ParseError { kind: ParseErrorKind::UnexpectedEnd, position: self.pos }),
        }
    }

    fn parse_var_name(&mut self) -> (r: Result<String, ParseError>)
        requires
            old(self).wf(),
        ensures
            old(self).pos <= final(self).pos,
            final(self).wf(),
            final(self).input@ == old(self).input@,
            match name_at(old(self).input@, old(self).pos as int) {
                Ok((n, k)) => r matches Ok(x) && x@ == n && final(self).pos == k,
                Err(e) => r == Err::<String, ParseError>(e),
            },
            r is Err ==> final(self).pos == old(self).pos,
    {
        let ghost s = self.input@;
        let start = self.pos;
        match self.peek() {
            Some(ch) => {
                if !is_name_start_exec(ch) {
                    return Err(ParseError { kind: ParseErrorKind::ExpectedName, position: self.pos });
                }
            },
            None => {
                return Err(ParseError { kind: ParseErrorKind::ExpectedName, position: self.pos });
            },
        }
        self.next();
        loop
            invariant
                self.wf(),
                self.input@ == s,
                start < self.pos,
                name_end(s, self.pos as int) == name_end(s, start + 1),
            ensures
                self.wf(),
                self.input@ == s,
                start < self.pos,
                self.pos == name_end(s, start + 1),
            decreases s.len() - self.pos,
        {
            match self.peek() {
                Some(ch) => {
                    if is_name_char_exec(ch) {
                        self.next();
                    } else {
                        break;
                    }
                },
                None => break,
            }
        }
        Ok(String::from_str(self.text.as_str().substring_char(start, self.pos)))
    }
}

/// Top-level parse function.
pub fn parse(s: &str) -> (r: Result<Expr, ParseError>)
    ensures
        result_view(r) == parse_text(s@),
{
    let mut p = Parser::new(s);
    p.parse()
}

/// A name that reads back as itself in canonical notation: an identifier (a letter
/// or `_`, then letters, digits or `_`) without white space, not starting with `λ`
/// (which would open a binder).
pub open spec fn readable_name(n: Seq<char>) -> bool {
    &&& valid_ident(n)
    &&& n[0] != 'λ'
    &&& forall|k: int| 0 <= k < n.len() ==> !is_white_space(#[trigger] n[k])
}

/// Every variable and binder of the term has a readable name.
pub open spec fn well_named(t: Term) -> bool
    decreases t,
{
    match t {
        Term::Var(n) => readable_name(n),
        Term::Abs(p, b) => readable_name(p) && well_named(*b),
        Term::App(f, a) => well_named(*f) && well_named(*a),
    }
}

/// Canonical notation starts with a character that opens an atom.
proof fn lemma_render_start(t: Term)
    requires
        well_named(t),
    ensures
        render_term(t).len() > 0,
        !is_white_space(render_term(t)[0]),
        render_term(t)[0] != '\\',
        render_term(t)[0] != 'λ',
        render_term(t)[0] != ')',
        render_term(t)[0] != '.',
        render_term(t)[0] == '(' || is_name_start(render_term(t)[0]),
{
    match t {
        Term::Var(n) => {
            assert(is_name_start(n[0]));
            assert(!is_white_space(n[0]));
        },
        Term::Abs(p, b) => {},
        Term::App(f, a) => {},
    }
}

/// Name characters at `i`, followed by the end or by a character outside names.
proof fn lemma_name_reads(s: Seq<char>, i: int, n: Seq<char>)
    requires
        forall|k: int| 0 <= k < n.len() ==> is_name_char(#[trigger] n[k]),
        0 <= i,
        i + n.len() <= s.len(),
        s.subrange(i, i + n.len()) == n,
        i + n.len() == s.len() || !is_name_char(s[i + n.len()]),
    ensures
        name_end(s, i) == i + n.len(),
    decreases n.len(),
{
    if n.len() > 0 {
        assert(s.subrange(i, i + n.len())[0] == s[i]);
        let n2 = n.subrange(1, n.len() as int);
        assert(s.subrange(i + 1, i + 1 + n2.len()) =~= n2) by {
            assert forall|k: int| 0 <= k < n2.len() implies s.subrange(i + 1, i + 1 + n2.len())[k]
                == n2[k] by {
                assert(s.subrange(i, i + n.len())[k + 1] == s[i + 1 + k]);
            }
        }
        assert forall|k: int| 0 <= k < n2.len() implies is_name_char(#[trigger] n2[k]) by {
            assert(n2[k] == n[k + 1]);
        }
        lemma_name_reads(s, i + 1, n2);
    }
}

/// A readable name at `i`, followed by the end or by a character outside names.
proof fn lemma_ident_reads(s: Seq<char>, i: int, n: Seq<char>)
    requires
        readable_name(n),
        0 <= i,
        i + n.len() <= s.len(),
        s.subrange(i, i + n.len()) == n,
        i + n.len() == s.len() || !is_name_char(s[i + n.len()]),
    ensures
        s[i] == n[0],
        is_name_start(s[i]),
        name_end(s, i + 1) == i + n.len(),
{
    assert(s.subrange(i, i + n.len())[0] == s[i]);
    let n2 = n.subrange(1, n.len() as int);
    assert(s.subrange(i + 1, i + 1 + n2.len()) =~= n2) by {
        assert forall|k: int| 0 <= k < n2.len() implies s.subrange(i + 1, i + 1 + n2.len())[k]
            == n2[k] by {
            assert(s.subrange(i, i + n.len())[k + 1] == s[i + 1 + k]);
        }
    }
    assert forall|k: int| 0 <= k < n2.len() implies is_name_char(#[trigger] n2[k]) by {
        assert(n2[k] == n[k + 1]);
    }
    lemma_name_reads(s, i + 1, n2);
}

/// The characters of `s` from `i` on spell `r`.
proof fn lemma_spells(s: Seq<char>, i: int, r: Seq<char>)
    requires
        0 <= i,
        i + r.len() <= s.len(),
        s.subrange(i, i + r.len()) == r,
    ensures
        forall|k: int| 0 <= k < r.len() ==> s[i + k] == #[trigger] r[k],
{
    assert forall|k: int| 0 <= k < r.len() implies s[i + k] == #[trigger] r[k] by {
        assert(s.subrange(i, i + r.len())[k] == s[i + k]);
    }
}

/// Canonical notation at `i` is read back by the atom rule.
proof fn lemma_atom_reads_render(s: Seq<char>, i: int, t: Term)
    requires
        well_named(t),
        0 <= i,
        i + render_term(t).len() <= s.len(),
        s.subrange(i, i + render_term(t).len()) == render_term(t),
        i + render_term(t).len() == s.len() || !is_name_char(s[i + render_term(t).len()]),
    ensures
        atom_at(s, i) == Ok::<(Term, int), ParseError>((t, i + render_term(t).len())),
    decreases size(t), 0int,
{
    let r = render_term(t);
    lemma_render_start(t);
    lemma_spells(s, i, r);
    assert(s[i] == r[0]);
    match t {
        Term::Var(n) => {
            lemma_ident_reads(s, i, n);
        },
        Term::Abs(p, b) => {
            let rb = render_term(*b);
            let np = p.len() as int;
            assert(r =~= seq!['(', 'λ'] + p + seq!['.'] + rb + seq![')']);
            assert(r[1] == 'λ');
            assert(s[i + 1] == 'λ');
            assert forall|k: int| 0 <= k < np implies r[2 + k] == #[trigger] p[k] by {}
            assert forall|k: int| 0 <= k < rb.len() implies r[3 + np + k] == #[trigger] rb[k] by {}
            assert(r[2 + np] == '.');
            assert(r[3 + np + rb.len() as int] == ')');
            assert(s.subrange(i + 2, i + 2 + np) =~= p);
            lemma_ident_reads(s, i + 2, p);
            assert(s[i + 2 + np] == '.');
            assert(s.subrange(i + 3 + np, i + 3 + np + rb.len()) =~= rb);
            assert(s[i + 3 + np + rb.len()] == ')');
            assert(s[i + 2] == p[0]);
            lemma_lambda_reads_render(s, i + 3 + np, *b);
            assert(name_at(s, i + 2) == Ok::<(Seq<char>, int), ParseError>((p, i + 2 + np)));
            assert(lambda_at(s, i + 1) == Ok::<(Term, int), ParseError>((t, i + 3 + np + rb.len())));
        },
        Term::App(f, a) => {
            let rf = render_term(*f);
            let ra = render_term(*a);
            assert(r =~= seq!['('] + rf + seq![' '] + ra + seq![')']);
            let e1 = i + 1 + rf.len();
            let e2 = e1 + 1 + ra.len();
            assert forall|k: int| 0 <= k < rf.len() implies r[1 + k] == #[trigger] rf[k] by {}
            assert forall|k: int| 0 <= k < ra.len() implies r[2 + rf.len() + k] == #[trigger] ra[k] by {}
            assert(r[1 + rf.len() as int] == ' ');
            assert(r[2 + rf.len() as int + ra.len() as int] == ')');
            assert(s.subrange(i + 1, e1) =~= rf);
            assert(s[e1] == ' ');
            assert(s.subrange(e1 + 1, e2) =~= ra);
            assert(s[e2] == ')');
            lemma_render_start(*f);
            lemma_render_start(*a);
            lemma_atom_reads_render(s, i + 1, *f);
            lemma_atom_reads_render(s, e1 + 1, *a);
            assert(s[i + 1] == rf[0]);
            assert(s[e1 + 1] == ra[0]);
            assert(skip_ws(s, e1 + 1) == e1 + 1);
            assert(skip_ws(s, e1) == e1 + 1);
            assert(skip_ws(s, e2) == e2);
            assert(app_rest(s, t, e2) == Ok::<(Term, int), ParseError>((t, e2)));
            assert(app_rest(s, *f, e1) == Ok::<(Term, int), ParseError>((t, e2)));
            assert(app_at(s, i + 1) == Ok::<(Term, int), ParseError>((t, e2)));
            assert(lambda_at(s, i + 1) == Ok::<(Term, int), ParseError>((t, e2)));
        },
    }
}

/// Canonical notation at `i`, followed by the end or by `)`, is read back by the
/// lambda rule.
proof fn lemma_lambda_reads_render(s: Seq<char>, i: int, t: Term)
    requires
        well_named(t),
        0 <= i,
        i + render_term(t).len() <= s.len(),
        s.subrange(i, i + render_term(t).len()) == render_term(t),
        i + render_term(t).len() == s.len() || s[i + render_term(t).len()] == ')',
    ensures
        lambda_at(s, i) == Ok::<(Term, int), ParseError>((t, i + render_term(t).len())),
    decreases size(t), 1int,
{
    let r = render_term(t);
    let e = i + r.len();
    lemma_render_start(t);
    lemma_spells(s, i, r);
    assert(s[i] == r[0]);
    lemma_atom_reads_render(s, i, t);
    assert(skip_ws(s, i) == i);
    assert(skip_ws(s, e) == e);
    assert(app_rest(s, t, e) == Ok::<(Term, int), ParseError>((t, e)));
    assert(app_at(s, i) == Ok::<(Term, int), ParseError>((t, e)));
}

/// Parsing the canonical notation of a term gives the term back.
pub proof fn lemma_parse_render_round_trip(t: Term)
    requires
        well_named(t),
    ensures
        parse_text(render_term(t)) == Ok::<Term, ParseError>(t),
{
    let s = render_term(t);
    assert(s.subrange(0, s.len() as int) =~= s);
    lemma_lambda_reads_render(s, 0, t);
    lemma_render_start(t);
    assert(skip_ws(s, 0) == 0);
    assert(skip_ws(s, s.len() as int) == s.len());
}

} // verus!
