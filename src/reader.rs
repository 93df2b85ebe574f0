//! The reader: tokens from text, atoms from tokens, expressions from both.

use vstd::prelude::*;

use crate::expr::{Atom, Error, Exp, LexError, ParseError, Value, view_atom, view_exp, view_seq, lemma_view_seq_push};

verus! {

broadcast use vstd::std_specs::vec::group_vec_axioms, vstd::seq::group_seq_axioms;

pub open spec fn is_space(c: char) -> bool {
    c == ' ' || c == '\t' || c == '\n' || c == '\r' || c == '\x0b' || c == '\x0c'
}

/// The characters that end a run of ordinary token characters.
pub open spec fn is_delimiter(c: char) -> bool {
    is_space(c) || c == '(' || c == ')' || c == '"' || c == '`' || c == ',' || c == ';'
}

/// The one-character tokens.
pub open spec fn is_single(c: char) -> bool {
    c == '(' || c == ')' || c == '\'' || c == '`' || c == ','
}

/// The end of the run of ordinary characters that starts at `p`.
pub open spec fn run_end(t: Seq<char>, p: int) -> int
    decreases t.len() - p,
{
    if p < 0 || p >= t.len() || is_delimiter(t[p]) {
        p
    } else {
        run_end(t, p + 1)
    }
}

/// The position of the quote that closes a string literal whose body starts
/// at `p`; a backslash takes the next character with it, and the literal
/// must close on its own line.
pub open spec fn string_end(t: Seq<char>, p: int) -> Option<int>
    decreases t.len() - p,
{
    if p < 0 || p >= t.len() || t[p] == '\n' {
        None
    } else if t[p] == '"' {
        Some(p)
    } else if t[p] == '\\' {
        if p + 1 < t.len() && t[p + 1] != '\n' {
            string_end(t, p + 2)
        } else {
            None
        }
    } else {
        string_end(t, p + 1)
    }
}

/// The next token at or after `p` and the position after it; `None` at the
/// end of the text. Whitespace and comments are skipped.
pub open spec fn lex(t: Seq<char>, p: int) -> Result<Option<(Seq<char>, int)>, LexError>
    decreases t.len() - p, 1int,
{
    if p < 0 || p >= t.len() {
        Ok(None)
    } else if is_space(t[p]) {
        lex(t, p + 1)
    } else if t[p] == ';' {
        lex_comment(t, p + 1)
    } else if t[p] == ',' && p + 1 < t.len() && t[p + 1] == '@' {
        Ok(Some((seq![',', '@'], p + 2)))
    } else if is_single(t[p]) {
        Ok(Some((seq![t[p]], p + 1)))
    } else if t[p] == '"' {
        match string_end(t, p + 1) {
            Some(q) => Ok(Some((t.subrange(p, q + 1), q + 1))),
            None => Err(LexError::UnterminatedString),
        }
    } else {
        Ok(Some((t.subrange(p, run_end(t, p)), run_end(t, p))))
    }
}

/// Inside a comment: everything up to the end of the line is skipped.
pub open spec fn lex_comment(t: Seq<char>, p: int) -> Result<Option<(Seq<char>, int)>, LexError>
    decreases t.len() - p, 0int,
{
    if p < 0 || p >= t.len() {
        Ok(None)
    } else if t[p] == '\n' {
        lex(t, p + 1)
    } else {
        lex_comment(t, p + 1)
    }
}

pub fn is_space_char(c: char) -> (r: bool)
    ensures
        r == is_space(c),
{
    c == ' ' || c == '\t' || c == '\n' || c == '\r' || c == '\x0b' || c == '\x0c'
}

pub fn is_delimiter_char(c: char) -> (r: bool)
    ensures
        r == is_delimiter(c),
{
    is_space_char(c) || c == '(' || c == ')' || c == '"' || c == '`' || c == ',' || c == ';'
}

pub proof fn lemma_run_end(t: Seq<char>, p: int)
    requires
        0 <= p <= t.len(),
    ensures
        p <= run_end(t, p) <= t.len(),
        forall|k: int| p <= k < run_end(t, p) ==> !is_delimiter(#[trigger] t[k]),
    decreases t.len() - p,
{
    if p < t.len() && !is_delimiter(t[p]) {
        lemma_run_end(t, p + 1);
    }
}

pub proof fn lemma_string_end(t: Seq<char>, p: int)
    requires
        0 <= p,
    ensures
        string_end(t, p) matches Some(q) ==> p <= q < t.len() && t[q] == '"',
    decreases t.len() - p,
{
    if 0 <= p < t.len() && t[p] != '\n' && t[p] != '"' {
        if t[p] == '\\' {
            if p + 1 < t.len() && t[p + 1] != '\n' {
                lemma_string_end(t, p + 2);
            }
        } else {
            lemma_string_end(t, p + 1);
        }
    }
}

/// A token always consumes text.
pub proof fn lemma_lex_advances(t: Seq<char>, p: int)
    requires
        0 <= p,
    ensures
        lex(t, p) matches Ok(Some((tok, q))) ==> p < q <= t.len() && tok.len() > 0,
    decreases t.len() - p, 1int,
{
    if p < t.len() {
        if is_space(t[p]) {
            lemma_lex_advances(t, p + 1);
        } else if t[p] == ';' {
            lemma_lex_comment_advances(t, p + 1);
        } else if t[p] == '"' {
            lemma_string_end(t, p + 1);
        } else if !is_single(t[p]) && t[p] != '"' {
            assert(!is_delimiter(t[p]));
            assert(run_end(t, p) == run_end(t, p + 1));
            lemma_run_end(t, p + 1);
        }
    }
}

pub proof fn lemma_lex_comment_advances(t: Seq<char>, p: int)
    requires
        0 <= p,
    ensures
        lex_comment(t, p) matches Ok(Some((tok, q))) ==> p < q <= t.len() && tok.len() > 0,
    decreases t.len() - p, 0int,
{
    if p < t.len() {
        if t[p] == '\n' {
            lemma_lex_advances(t, p + 1);
        } else {
            lemma_lex_comment_advances(t, p + 1);
        }
    }
}

/// The characters `t[from..to]`.
pub fn slice_chars(t: &Vec<char>, from: usize, to: usize) -> (r: Vec<char>)
    requires
        from <= to <= t@.len(),
    ensures
        r@ == t@.subrange(from as int, to as int),
{
    let mut r: Vec<char> = Vec::new();
    let mut i = from;
    while i < to
        invariant
            from <= i <= to,
            to <= t@.len(),
            r@ == t@.subrange(from as int, i as int),
        decreases to - i,
    {
        r.push(t[i]);
        i = i + 1;
        assert(r@ =~= t@.subrange(from as int, i as int));
    }
    r
}

/// The next token of `t` at or after `p`, as `lex` states it.
pub fn lex_at(t: &Vec<char>, p: usize) -> (r: Result<Option<(Vec<char>, usize)>, LexError>)
    ensures
        match lex(t@, p as int) {
            Err(e) => r == Err::<Option<(Vec<char>, usize)>, LexError>(e),
            Ok(None) => r matches Ok(None),
            Ok(Some((tok, q))) => r matches Ok(Some((v, q2))) && v@ == tok && q2 == q,
        },
{
    let n = t.len();
    let mut cur = p;
    loop
        invariant
            n == t@.len(),
            lex(t@, p as int) == lex(t@, cur as int),
        ensures
            cur < n,
            !is_space(t@[cur as int]),
            t@[cur as int] != ';',
            lex(t@, p as int) == lex(t@, cur as int),
        decreases n - cur,
    {
        if cur >= n {
            return Ok(None);
        }
        let c = t[cur];
        if is_space_char(c) {
            cur = cur + 1;
        } else if c == ';' {
            let mut k = cur + 1;
            while k < n && t[k] != '\n'
                invariant
                    n == t@.len(),
                    cur < k,
                    lex(t@, p as int) == lex_comment(t@, k as int),
                decreases n - k,
            {
                k = k + 1;
            }
            if k >= n {
                return Ok(None);
            }
            cur = k + 1;
        } else {
            break;
        }
    }
    let c = t[cur];
    if c == ',' && cur + 1 < n && t[cur + 1] == '@' {
        let tok = slice_chars(t, cur, cur + 2);
        assert(tok@ =~= seq![',', '@']);
        return Ok(Some((tok, cur + 2)));
    }
    if c == '(' || c == ')' || c == '\'' || c == '`' || c == ',' {
        let tok = slice_chars(t, cur, cur + 1);
        assert(tok@ =~= seq![c]);
        return Ok(Some((tok, cur + 1)));
    }
    if c == '"' {
        let mut k = cur + 1;
        loop
            invariant
                n == t@.len(),
                cur < k,
                cur < n,
                t@[cur as int] == '"',
                lex(t@, p as int) == lex(t@, cur as int),
                string_end(t@, cur + 1) == string_end(t@, k as int),
            decreases n - k,
        {
            if k >= n || t[k] == '\n' {
                return Err(LexError::UnterminatedString);
            }
            if t[k] == '"' {
                let tok = slice_chars(t, cur, k + 1);
                return Ok(Some((tok, k + 1)));
            }
            if t[k] == '\\' {
                if k + 1 < n && t[k + 1] != '\n' {
                    k = k + 2;
                } else {
                    return Err(LexError::UnterminatedString);
                }
            } else {
                k = k + 1;
            }
        }
    }
    let mut k = cur;
    while k < n && !is_delimiter_char(t[k])
        invariant
            n == t@.len(),
            cur <= k <= n,
            run_end(t@, cur as int) == run_end(t@, k as int),
        decreases n - k,
    {
        k = k + 1;
    }
    let tok = slice_chars(t, cur, k);
    Ok(Some((tok, k)))
}

pub open spec fn is_digit(c: char) -> bool {
    '0' <= c <= '9'
}

pub open spec fn digits_value(s: Seq<char>) -> int
    decreases s.len(),
{
    if s.len() == 0 {
        0
    } else {
        digits_value(s.drop_last()) * 10 + (s.last() as int - '0' as int)
    }
}

pub open spec fn all_digits(s: Seq<char>) -> bool {
    s.len() > 0 && forall|i: int| 0 <= i < s.len() ==> is_digit(#[trigger] s[i])
}

/// A decimal integer literal: an optional sign and at least one digit, whose
/// value fits in 64 bits.
pub open spec fn int_literal(s: Seq<char>) -> Option<int> {
    let signed = s.len() > 0 && (s[0] == '+' || s[0] == '-');
    let body = if signed { s.subrange(1, s.len() as int) } else { s };
    let v = if signed && s[0] == '-' { -digits_value(body) } else { digits_value(body) };
    if all_digits(body) && i64::MIN <= v <= i64::MAX {
        Some(v)
    } else {
        None
    }
}

/// What num_complex reads from a token as a complex number with integer
/// parts, if it reads one.
pub uninterp spec fn complex_literal(s: Seq<char>) -> Option<(i64, i64)>;

/// Whether a text holds neither of the imaginary unit letters `i` and `j`.
pub open spec fn no_unit_letter(s: Seq<char>) -> bool {
    forall|k: int| 0 <= k < s.len() ==> s[k] != 'i' && s[k] != 'j'
}

/// Relies on num_complex's `FromStr` for `Complex<i64>`: forms such as
/// `1+2i`, `3i` or `-4j`, with the parts read as `i64`. Without a unit
/// letter only a plain integer (read by `i64::from_str`) is accepted.
#[verifier::external_body]
fn parse_complex(s: &str) -> (r: Option<(i64, i64)>)
    ensures
        r == complex_literal(s@),
        no_unit_letter(s@) && int_literal(s@) is None ==> r is None,
{
    match <num_complex::Complex<i64> as std::str::FromStr>::from_str(s) {
        Ok(c) => Some((c.re, c.im)),
        Err(_) => None,
    }
}

/// Relies on `String: FromIterator<char>`: the characters in order.
#[verifier::external_body]
pub(crate) fn string_of(v: &Vec<char>) -> (r: String)
    ensures
        r@ == v@,
{
    v.iter().collect()
}

/// The characters of a string slice.
pub fn chars_of(s: &str) -> (r: Vec<char>)
    ensures
        r@ == s@,
{
    let n = s.unicode_len();
    let mut r: Vec<char> = Vec::new();
    let mut i: usize = 0;
    while i < n
        invariant
            n == s@.len(),
            i <= n,
            r@ == s@.subrange(0, i as int),
        decreases n - i,
    {
        r.push(s.get_char(i));
        i = i + 1;
        assert(r@ =~= s@.subrange(0, i as int));
    }
    assert(r@ =~= s@);
    r
}

pub proof fn lemma_digits_nonneg(s: Seq<char>)
    requires
        forall|i: int| 0 <= i < s.len() ==> is_digit(#[trigger] s[i]),
    ensures
        digits_value(s) >= 0,
    decreases s.len(),
{
    if s.len() > 0 {
        lemma_digits_nonneg(s.drop_last());
    }
}

pub proof fn lemma_digits_prefix(s: Seq<char>, k: int)
    requires
        forall|i: int| 0 <= i < s.len() ==> is_digit(#[trigger] s[i]),
        0 <= k <= s.len(),
    ensures
        digits_value(s.subrange(0, k)) <= digits_value(s),
    decreases s.len(),
{
    if k == s.len() {
        assert(s.subrange(0, k) =~= s);
    } else {
        lemma_digits_prefix(s.drop_last(), k);
        assert(s.drop_last().subrange(0, k) =~= s.subrange(0, k));
        lemma_digits_nonneg(s.drop_last());
    }
}

/// The value of a decimal integer literal, as `int_literal` states it.
pub fn parse_int(s: &Vec<char>) -> (r: Option<i64>)
    ensures
        match int_literal(s@) {
            Some(v) => r == Some(v as i64),
            None => r is None,
        },
{
    let n = s.len();
    if n == 0 {
        return None;
    }
    let signed = s[0] == '+' || s[0] == '-';
    let neg = s[0] == '-';
    let start: usize = if signed { 1 } else { 0 };
    let ghost body = if signed { s@.subrange(1, s@.len() as int) } else { s@ };
    if start >= n {
        return None;
    }
    let mut k = start;
    while k < n
        invariant
            n == s@.len(),
            start <= k <= n,
            body == s@.subrange(start as int, n as int),
            body == (if s@.len() > 0 && (s@[0] == '+' || s@[0] == '-') { s@.subrange(1, s@.len() as int) } else { s@ }),
            signed == (s@[0] == '+' || s@[0] == '-'),
            neg == (s@[0] == '-'),
            forall|j: int| 0 <= j < k - start ==> is_digit(#[trigger] body[j]),
        decreases n - k,
    {
        let c = s[k];
        if !('0' <= c && c <= '9') {
            assert(body[k - start] == c);
            assert(!is_digit(body[k - start]));
            assert(!all_digits(body));
            return None;
        }
        k = k + 1;
    }
    let mut acc: u128 = 0;
    let mut i = start;
    while i < n
        invariant
            n == s@.len(),
            start <= i <= n,
            start < n,
            body == s@.subrange(start as int, n as int),
            body == (if s@.len() > 0 && (s@[0] == '+' || s@[0] == '-') { s@.subrange(1, s@.len() as int) } else { s@ }),
            signed == (s@[0] == '+' || s@[0] == '-'),
            neg == (s@[0] == '-'),
            acc as int == digits_value(body.subrange(0, i - start)),
            acc <= 0x8000_0000_0000_0000u128,
            forall|j: int| 0 <= j < n - start ==> is_digit(#[trigger] body[j]),
        decreases n - i,
    {
        let c = s[i];
        proof {
            assert(body.subrange(0, i + 1 - start).drop_last() =~= body.subrange(0, i - start));
            assert(body[i - start] == c);
        }
        acc = acc * 10 + (c as u32 - '0' as u32) as u128;
        i = i + 1;
        assert(acc as int == digits_value(body.subrange(0, i - start)));
        if acc > 0x8000_0000_0000_0000u128 {
            proof {
                lemma_digits_prefix(body, i - start);
                assert(all_digits(body));
                assert(digits_value(body) > 0x8000_0000_0000_0000);
            }
            return None;
        }
    }
    proof {
        assert(body.subrange(0, n - start) =~= body);
    }
    if neg {
        if acc == 0x8000_0000_0000_0000u128 {
            Some(i64::MIN)
        } else {
            Some(-(acc as i64))
        }
    } else {
        if acc > 0x7fff_ffff_ffff_ffffu128 {
            None
        } else {
            Some(acc as i64)
        }
    }
}

pub open spec fn true_text() -> Seq<char> {
    seq!['#', 't']
}

pub open spec fn false_text() -> Seq<char> {
    seq!['#', 'f']
}

/// The atom that a token stands for: a boolean, a string literal without
/// its quotes, an integer, a complex number (only a token with an `i` or a
/// `j` can be one), else a symbol.
pub open spec fn atom_spec(tok: Seq<char>) -> Value {
    if tok == true_text() {
        Value::Bool(true)
    } else if tok == false_text() {
        Value::Bool(false)
    } else if tok.len() >= 2 && tok[0] == '"' {
        Value::Str(tok.subrange(1, tok.len() - 1))
    } else if int_literal(tok) is Some {
        Value::Number(int_literal(tok)->0)
    } else if no_unit_letter(tok) {
        Value::Symbol(tok)
    } else {
        match complex_literal(tok) {
            Some((re, im)) => Value::Complex(re as int, im as int),
            None => Value::Symbol(tok),
        }
    }
}

/// The atom that a token stands for.
pub fn atom(token: &Vec<char>) -> (r: Atom)
    ensures
        view_atom(r) == atom_spec(token@),
{
    let n = token.len();
    if n == 2 && token[0] == '#' && (token[1] == 't' || token[1] == 'f') {
        assert(token@ =~= true_text() || token@ =~= false_text());
        return Atom::Bool(token[1] == 't');
    }
    assert(token@ != true_text() && token@ != false_text());
    if n >= 2 && token[0] == '"' {
        let body = slice_chars(token, 1, n - 1);
        return Atom::String(string_of(&body));
    }
    match parse_int(token) {
        Some(v) => Atom::Number(v),
        None => {
            let text = string_of(token);
            match parse_complex(text.as_str()) {
                Some((re, im)) => Atom::Complex(re, im),
                None => Atom::Symbol(text),
            }
        },
    }
}

pub open spec fn is_quote_marker(s: Seq<char>) -> bool {
    s == seq!['\''] || s == seq!['`'] || s == seq![','] || s == seq![',', '@']
}

/// Whether a token is one of the quote shorthand markers.
pub fn in_quotes(s: &str) -> (r: bool)
    ensures
        r == is_quote_marker(s@),
{
    let n = s.unicode_len();
    if n == 1 {
        let c = s.get_char(0);
        assert(s@ =~= seq![c]);
        c == '\'' || c == '`' || c == ','
    } else if n == 2 {
        let c0 = s.get_char(0);
        let c1 = s.get_char(1);
        assert(s@ =~= seq![c0, c1]);
        c0 == ',' && c1 == '@'
    } else {
        false
    }
}

/// The symbol that a quote marker stands for.
pub open spec fn marker_name(s: Seq<char>) -> Seq<char> {
    if s == seq!['\''] {
        "quote"@
    } else if s == seq!['`'] {
        "quasiquote"@
    } else if s == seq![','] {
        "unquote"@
    } else {
        "unquote-splicing"@
    }
}

fn marker_symbol(s: &Vec<char>) -> (r: String)
    ensures
        r@ == marker_name(s@),
{
    if s.len() == 1 && s[0] == '\'' {
        assert(s@ =~= seq!['\'']);
        String::from_str("quote")
    } else if s.len() == 1 && s[0] == '`' {
        assert(s@ =~= seq!['`']);
        String::from_str("quasiquote")
    } else if s.len() == 1 && s[0] == ',' {
        assert(s@ =~= seq![',']);
        String::from_str("unquote")
    } else {
        assert(s@ != seq!['\''] && s@ != seq!['`'] && s@ != seq![',']);
        String::from_str("unquote-splicing")
    }
}

/// The next expression of `t` at or after `p` and the position after it;
/// `None` where only whitespace and comments are left.
pub open spec fn read_form(t: Seq<char>, p: int) -> Result<Option<(Value, int)>, Error>
    decreases t.len() - p, 0int,
{
    match lex(t, p) {
        Err(e) => Err(Error::Lex(e)),
        Ok(None) => Ok(None),
        Ok(Some((tok, q))) => if p < q <= t.len() {
            match read_after(t, tok, q) {
                Ok((v, r)) => Ok(Some((v, r))),
                Err(e) => Err(e),
            }
        } else {
            Ok(None)
        },
    }
}

/// The expression that starts with token `tok`, which ends at `q`.
pub open spec fn read_after(t: Seq<char>, tok: Seq<char>, q: int) -> Result<(Value, int), Error>
    decreases t.len() - q, 2int,
{
    if tok == seq!['('] {
        read_list(t, q, Seq::empty())
    } else if tok == seq![')'] {
        Err(Error::Lex(LexError::UnexpectedCloseParen))
    } else if is_quote_marker(tok) {
        match read_form(t, q) {
            Ok(Some((v, r))) => Ok((Value::List(seq![Value::Symbol(marker_name(tok)), v]), r)),
            Ok(None) => Err(Error::Parse(ParseError::UnexpectedEof)),
            Err(e) => Err(e),
        }
    } else {
        Ok((atom_spec(tok), q))
    }
}

/// The rest of a list whose elements so far are `acc`, from `q` on.
pub open spec fn read_list(t: Seq<char>, q: int, acc: Seq<Value>) -> Result<(Value, int), Error>
    decreases t.len() - q, 1int,
{
    match lex(t, q) {
        Err(e) => Err(Error::Lex(e)),
        Ok(None) => Err(Error::Parse(ParseError::UnexpectedEof)),
        Ok(Some((tok, q2))) => if q < q2 <= t.len() {
            if tok == seq![')'] {
                Ok((Value::List(acc), q2))
            } else {
                match read_after(t, tok, q2) {
                    Ok((v, q3)) => if q < q3 <= t.len() {
                        read_list(t, q3, acc.push(v))
                    } else {
                        Err(Error::Parse(ParseError::UnexpectedEof))
                    },
                    Err(e) => Err(e),
                }
            }
        } else {
            Err(Error::Parse(ParseError::UnexpectedEof))
        },
    }
}

pub open spec fn form_matches(r: Result<Option<(Exp, usize)>, Error>, s: Result<Option<(Value, int)>, Error>) -> bool {
    match s {
        Err(e) => r == Err::<Option<(Exp, usize)>, Error>(e),
        Ok(None) => r matches Ok(None),
        Ok(Some((v, q))) => r matches Ok(Some((e, q2))) && view_exp(e) == v && q2 == q,
    }
}

pub open spec fn item_matches(r: Result<(Exp, usize), Error>, s: Result<(Value, int), Error>) -> bool {
    match s {
        Err(e) => r == Err::<(Exp, usize), Error>(e),
        Ok((v, q)) => r matches Ok((e, q2)) && view_exp(e) == v && q2 == q,
    }
}

pub proof fn lemma_read_after_ends(t: Seq<char>, tok: Seq<char>, q: int)
    requires
        0 <= q <= t.len(),
    ensures
        read_after(t, tok, q) matches Ok((_, r)) ==> q <= r <= t.len(),
    decreases t.len() - q, 2int,
{
    if tok == seq!['('] {
        lemma_read_list_ends(t, q, Seq::empty());
    } else if tok != seq![')'] && is_quote_marker(tok) {
        lemma_read_form_ends(t, q);
    }
}

pub proof fn lemma_read_form_ends(t: Seq<char>, p: int)
    requires
        0 <= p <= t.len(),
    ensures
        read_form(t, p) matches Ok(Some((_, r))) ==> p < r <= t.len(),
    decreases t.len() - p, 0int,
{
    lemma_lex_advances(t, p);
    if let Ok(Some((tok, q))) = lex(t, p) {
        lemma_read_after_ends(t, tok, q);
    }
}

pub proof fn lemma_read_list_ends(t: Seq<char>, q: int, acc: Seq<Value>)
    requires
        0 <= q <= t.len(),
    ensures
        read_list(t, q, acc) matches Ok((_, r)) ==> q < r <= t.len(),
    decreases t.len() - q, 1int,
{
    lemma_lex_advances(t, q);
    if let Ok(Some((tok, q2))) = lex(t, q) {
        if q < q2 <= t.len() && tok != seq![')'] {
            lemma_read_after_ends(t, tok, q2);
            if let Ok((v, q3)) = read_after(t, tok, q2) {
                if q < q3 <= t.len() {
                    lemma_read_list_ends(t, q3, acc.push(v));
                }
            }
        }
    }
}

/// The next expression of `t` at or after `p`, as `read_form` states it.
pub fn read_form_at(t: &Vec<char>, p: usize) -> (r: Result<Option<(Exp, usize)>, Error>)
    requires
        p <= t@.len(),
    ensures
        form_matches(r, read_form(t@, p as int)),
    decreases t@.len() - p, 0int,
{
    proof {
        lemma_lex_advances(t@, p as int);
    }
    match lex_at(t, p) {
        Err(e) => Err(Error::Lex(e)),
        Ok(None) => Ok(None),
        Ok(Some((tok, q))) => match read_after_at(t, tok, q) {
            Ok((e, r)) => Ok(Some((e, r))),
            Err(e) => Err(e),
        },
    }
}

fn read_after_at(t: &Vec<char>, tok: Vec<char>, q: usize) -> (r: Result<(Exp, usize), Error>)
    requires
        q <= t@.len(),
    ensures
        item_matches(r, read_after(t@, tok@, q as int)),
    decreases t@.len() - q, 2int,
{
    if tok.len() == 1 && tok[0] == '(' {
        assert(tok@ =~= seq!['(']);
        return read_list_at(t, q);
    }
    if tok.len() == 1 && tok[0] == ')' {
        assert(tok@ =~= seq![')']);
        return Err(Error::Lex(LexError::UnexpectedCloseParen));
    }
    assert(tok@ != seq!['('] && tok@ != seq![')']);
    let text = string_of(&tok);
    if in_quotes(text.as_str()) {
        let name = marker_symbol(&tok);
        match read_form_at(t, q) {
            Ok(Some((e, r))) => {
                let mut items: Vec<Exp> = Vec::new();
                items.push(Exp::Atom(Atom::Symbol(name)));
                items.push(e);
                proof {
                    lemma_view_seq_push(Seq::empty(), items@[0]);
                    assert(items@ =~= Seq::<Exp>::empty().push(items@[0]).push(items@[1]));
                    lemma_view_seq_push(Seq::empty().push(items@[0]), items@[1]);
                    assert(view_seq(items@) =~= seq![Value::Symbol(marker_name(tok@)), view_exp(items@[1])]);
                }
                Ok((Exp::List(items), r))
            },
            Ok(None) => Err(Error::Parse(ParseError::UnexpectedEof)),
            Err(e) => Err(e),
        }
    } else {
        Ok((Exp::Atom(atom(&tok)), q))
    }
}

fn read_list_at(t: &Vec<char>, q: usize) -> (r: Result<(Exp, usize), Error>)
    requires
        q <= t@.len(),
    ensures
        item_matches(r, read_list(t@, q as int, Seq::empty())),
    decreases t@.len() - q, 1int,
{
    let mut acc: Vec<Exp> = Vec::new();
    let mut cur = q;
    proof {
        assert(view_seq(acc@) =~= Seq::<Value>::empty());
    }
    loop
        invariant
            q <= cur <= t@.len(),
            read_list(t@, q as int, Seq::empty()) == read_list(t@, cur as int, view_seq(acc@)),
        decreases t@.len() - cur,
    {
        proof {
            lemma_lex_advances(t@, cur as int);
        }
        match lex_at(t, cur) {
            Err(e) => {
                return Err(Error::Lex(e));
            },
            Ok(None) => {
                return Err(Error::Parse(ParseError::UnexpectedEof));
            },
            Ok(Some((tok, q2))) => {
                if tok.len() == 1 && tok[0] == ')' {
                    assert(tok@ =~= seq![')']);
                    return Ok((Exp::List(acc), q2));
                }
                assert(tok@ != seq![')']);
                proof {
                    lemma_read_after_ends(t@, tok@, q2 as int);
                }
                match read_after_at(t, tok, q2) {
                    Ok((e, q3)) => {
                        proof {
                            lemma_view_seq_push(acc@, e);
                        }
                        acc.push(e);
                        cur = q3;
                    },
                    Err(e) => {
                        return Err(e);
                    },
                }
            },
        }
    }
}

/// A source of tokens and expressions: the text of one submission, which
/// may span several lines, and how far it has been read.
pub struct InPort {
    pub text: Vec<char>,
    pub pos: usize,
}

impl InPort {
    pub fn new(line: &str) -> (r: InPort)
        ensures
            r.text@ == line@,
            r.pos == 0,
    {
        InPort { text: chars_of(line), pos: 0 }
    }

    /// The next token, or `None` at the end of the text.
    pub fn next_token(&mut self) -> (r: Result<Option<String>, LexError>)
        ensures
            final(self).text == old(self).text,
            match lex(old(self).text@, old(self).pos as int) {
                Err(e) => r == Err::<Option<String>, LexError>(e) && final(self).pos == old(self).pos,
                Ok(None) => r matches Ok(None) && final(self).pos == old(self).pos,
                Ok(Some((tok, q))) => r matches Ok(Some(s)) && s@ == tok && final(self).pos == q,
            },
    {
        match lex_at(&self.text, self.pos) {
            Err(e) => Err(e),
            Ok(None) => Ok(None),
            Ok(Some((tok, q))) => {
                self.pos = q;
                Ok(Some(string_of(&tok)))
            },
        }
    }

    /// The next expression, or `None` where only whitespace and comments are
    /// left. After an error the port does not move.
    pub fn read(&mut self) -> (r: Result<Option<Exp>, Error>)
        requires
            old(self).pos <= old(self).text@.len(),
        ensures
            final(self).text == old(self).text,
            final(self).pos <= final(self).text@.len(),
            match read_form(old(self).text@, old(self).pos as int) {
                Err(e) => r == Err::<Option<Exp>, Error>(e) && final(self).pos == old(self).pos,
                Ok(None) => r matches Ok(None) && final(self).pos == old(self).pos,
                Ok(Some((v, q))) => r matches Ok(Some(e)) && view_exp(e) == v && final(self).pos == q,
            },
    {
        proof {
            lemma_read_form_ends(self.text@, self.pos as int);
        }
        match read_form_at(&self.text, self.pos) {
            Err(e) => Err(e),
            Ok(None) => Ok(None),
            Ok(Some((e, q))) => {
                self.pos = q;
                Ok(Some(e))
            },
        }
    }
}

/// The expression that starts at token `i` of an already split token
/// sequence, and the index after it.
pub open spec fn parse_tokens(ts: Seq<Seq<char>>, i: int) -> Result<(Value, int), Error>
    decreases ts.len() - i, 1int,
{
    if i < 0 || i >= ts.len() {
        Err(Error::Parse(ParseError::UnexpectedEof))
    } else if ts[i] == seq!['('] {
        parse_list(ts, i + 1, Seq::empty())
    } else if ts[i] == seq![')'] {
        Err(Error::Lex(LexError::UnexpectedCloseParen))
    } else if is_quote_marker(ts[i]) {
        match parse_tokens(ts, i + 1) {
            Ok((v, j)) => Ok((Value::List(seq![Value::Symbol(marker_name(ts[i])), v]), j)),
            Err(e) => Err(e),
        }
    } else {
        Ok((atom_spec(ts[i]), i + 1))
    }
}

/// The rest of a list whose elements so far are `acc`, from token `i` on.
pub open spec fn parse_list(ts: Seq<Seq<char>>, i: int, acc: Seq<Value>) -> Result<(Value, int), Error>
    decreases ts.len() - i, 2int,
{
    if i < 0 || i >= ts.len() {
        Err(Error::Parse(ParseError::UnexpectedEof))
    } else if ts[i] == seq![')'] {
        Ok((Value::List(acc), i + 1))
    } else {
        match parse_tokens(ts, i) {
            Ok((v, j)) => if i < j <= ts.len() {
                parse_list(ts, j, acc.push(v))
            } else {
                Err(Error::Parse(ParseError::UnexpectedEof))
            },
            Err(e) => Err(e),
        }
    }
}

pub proof fn lemma_parse_tokens_ends(ts: Seq<Seq<char>>, i: int)
    requires
        0 <= i,
    ensures
        parse_tokens(ts, i) matches Ok((_, j)) ==> i < j <= ts.len(),
    decreases ts.len() - i, 1int,
{
    if i < ts.len() {
        if ts[i] == seq!['('] {
            lemma_parse_list_ends(ts, i + 1, Seq::empty());
        } else if ts[i] != seq![')'] && is_quote_marker(ts[i]) {
            lemma_parse_tokens_ends(ts, i + 1);
        }
    }
}

pub proof fn lemma_parse_list_ends(ts: Seq<Seq<char>>, i: int, acc: Seq<Value>)
    requires
        0 <= i,
    ensures
        parse_list(ts, i, acc) matches Ok((_, j)) ==> i < j <= ts.len(),
    decreases ts.len() - i, 2int,
{
    if i < ts.len() && ts[i] != seq![')'] {
        lemma_parse_tokens_ends(ts, i);
        if let Ok((v, j)) = parse_tokens(ts, i) {
            if i < j <= ts.len() {
                lemma_parse_list_ends(ts, j, acc.push(v));
            }
        }
    }
}

pub open spec fn token_views(ts: Seq<String>) -> Seq<Seq<char>> {
    ts.map_values(|t: String| t@)
}

fn is_char_token(tok: &String, c: char) -> (r: bool)
    ensures
        r == (tok@ == seq![c]),
{
    let s = tok.as_str();
    if s.unicode_len() == 1 {
        let d = s.get_char(0);
        assert(s@ =~= seq![d]);
        d == c
    } else {
        false
    }
}

fn parse_tokens_at(ts: &Vec<String>, i: usize) -> (r: Result<(Exp, usize), Error>)
    ensures
        item_matches(r, parse_tokens(token_views(ts@), i as int)),
    decreases ts@.len() - i, 1int,
{
    let ghost tv = token_views(ts@);
    if i >= ts.len() {
        return Err(Error::Parse(ParseError::UnexpectedEof));
    }
    let tok = &ts[i];
    assert(tv[i as int] == tok@);
    if is_char_token(tok, '(') {
        return parse_list_at(ts, i + 1);
    }
    if is_char_token(tok, ')') {
        return Err(Error::Lex(LexError::UnexpectedCloseParen));
    }
    let chars = chars_of(tok.as_str());
    if in_quotes(tok.as_str()) {
        let name = marker_symbol(&chars);
        match parse_tokens_at(ts, i + 1) {
            Ok((e, j)) => {
                let mut items: Vec<Exp> = Vec::new();
                items.push(Exp::Atom(Atom::Symbol(name)));
                items.push(e);
                proof {
                    lemma_view_seq_push(Seq::empty(), items@[0]);
                    assert(items@ =~= Seq::<Exp>::empty().push(items@[0]).push(items@[1]));
                    lemma_view_seq_push(Seq::empty().push(items@[0]), items@[1]);
                    assert(view_seq(items@) =~= seq![Value::Symbol(marker_name(tok@)), view_exp(items@[1])]);
                }
                Ok((Exp::List(items), j))
            },
            Err(e) => Err(e),
        }
    } else {
        Ok((Exp::Atom(atom(&chars)), i + 1))
    }
}

fn parse_list_at(ts: &Vec<String>, i: usize) -> (r: Result<(Exp, usize), Error>)
    ensures
        item_matches(r, parse_list(token_views(ts@), i as int, Seq::empty())),
    decreases ts@.len() - i, 2int,
{
    let ghost tv = token_views(ts@);
    let mut acc: Vec<Exp> = Vec::new();
    let mut cur = i;
    assert(view_seq(acc@) =~= Seq::<Value>::empty());
    loop
        invariant
            i <= cur,
            tv == token_views(ts@),
            parse_list(tv, i as int, Seq::empty()) == parse_list(tv, cur as int, view_seq(acc@)),
        decreases ts@.len() - cur,
    {
        if cur >= ts.len() {
            return Err(Error::Parse(ParseError::UnexpectedEof));
        }
        assert(tv[cur as int] == ts@[cur as int]@);
        if is_char_token(&ts[cur], ')') {
            return Ok((Exp::List(acc), cur + 1));
        }
        proof {
            lemma_parse_tokens_ends(tv, cur as int);
        }
        match parse_tokens_at(ts, cur) {
            Ok((e, j)) => {
                proof {
                    lemma_view_seq_push(acc@, e);
                }
                acc.push(e);
                cur = j;
            },
            Err(e) => {
                return Err(e);
            },
        }
    }
}

/// Takes one expression off the front of a token sequence; on success the
/// tokens it spans are gone, on failure the sequence is left as it was.
pub fn read_from_tokens(tokens: &mut Vec<String>) -> (r: Result<Exp, Error>)
    ensures
        match parse_tokens(token_views(old(tokens)@), 0) {
            Ok((v, j)) => r matches Ok(e) && view_exp(e) == v && final(tokens)@ == old(tokens)@.subrange(j, old(tokens)@.len() as int),
            Err(err) => r == Err::<Exp, Error>(err) && final(tokens)@ == old(tokens)@,
        },
{
    proof {
        lemma_parse_tokens_ends(token_views(tokens@), 0);
    }
    match parse_tokens_at(tokens, 0) {
        Ok((e, j)) => {
            let mut rest: Vec<String> = Vec::new();
            let mut k = j;
            while k < tokens.len()
                invariant
                    j <= k <= tokens@.len(),
                    rest@ == tokens@.subrange(j as int, k as int),
                decreases tokens@.len() - k,
            {
                rest.push(tokens[k].clone());
                k = k + 1;
                assert(rest@ =~= tokens@.subrange(j as int, k as int));
            }
            *tokens = rest;
            Ok(e)
        },
        Err(err) => Err(err),
    }
}

} // verus!
