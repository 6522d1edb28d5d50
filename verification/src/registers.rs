//! The register description language: comments and register declarations.
//!
//! A register declaration reads
//! `__register <bits> { <to>:<from> <name>, ... } <NAME> ;`,
//! optionally preceded by `array [ <from>..<to> ] of`; a comment runs from
//! `//` to the end of its line. The scanning functions carry exact
//! contracts; a failed parse is the caller's concern and aborts nothing but
//! the one parse.

use vstd::prelude::*;

use crate::ast::{Bitfield, Range, Register, Statement};
use crate::text::{spec_parse_u64, parse_u64_radix, str_eq};

verus! {

/// The whitespace that separates tokens.
pub open spec fn is_ws_char(c: char) -> bool {
    c == ' ' || c == '\t' || c == '\n' || c == '\r'
}

/// A decimal digit.
pub open spec fn is_digit_char(c: char) -> bool {
    '0' <= c && c <= '9'
}

/// A character that may stand in an identifier.
pub open spec fn is_ident_char(c: char) -> bool {
    ('a' <= c && c <= 'z') || ('A' <= c && c <= 'Z') || is_digit_char(c) || c == '_'
}

/// The first position at or after `i` holding no whitespace.
pub open spec fn ws_end(s: Seq<char>, i: int) -> int
    decreases s.len() - i when 0 <= i <= s.len()
{
    if i < s.len() && is_ws_char(s[i]) {
        ws_end(s, i + 1)
    } else {
        i
    }
}

/// The first position at or after `i` holding no decimal digit.
pub open spec fn digits_end(s: Seq<char>, i: int) -> int
    decreases s.len() - i when 0 <= i <= s.len()
{
    if i < s.len() && is_digit_char(s[i]) {
        digits_end(s, i + 1)
    } else {
        i
    }
}

/// The first position at or after `i` holding no identifier character.
pub open spec fn ident_end(s: Seq<char>, i: int) -> int
    decreases s.len() - i when 0 <= i <= s.len()
{
    if i < s.len() && is_ident_char(s[i]) {
        ident_end(s, i + 1)
    } else {
        i
    }
}

/// Where a parse failed: the character position that made no sense.
#[derive(Debug, PartialEq)]
pub struct ParseError {
    pub at: usize,
}

/// Steps over the whitespace starting at `i`.
fn skip_ws(s: &str, i: usize) -> (r: usize)
    requires
        i <= s@.len(),
    ensures
        r as int == ws_end(s@, i as int),
        i <= r <= s@.len(),
{
    let n = s.unicode_len();
    let mut j = i;
    loop
        invariant
            n == s@.len(),
            i <= j <= n,
            ws_end(s@, i as int) == ws_end(s@, j as int),
        decreases n - j,
    {
        if j >= n {
            return j;
        }
        let c = s.get_char(j);
        if !(c == ' ' || c == '\t' || c == '\n' || c == '\r') {
            return j;
        }
        j = j + 1;
    }
}

/// Steps over the decimal digits starting at `i`.
fn skip_digits(s: &str, i: usize) -> (r: usize)
    requires
        i <= s@.len(),
    ensures
        r as int == digits_end(s@, i as int),
        i <= r <= s@.len(),
{
    let n = s.unicode_len();
    let mut j = i;
    loop
        invariant
            n == s@.len(),
            i <= j <= n,
            digits_end(s@, i as int) == digits_end(s@, j as int),
        decreases n - j,
    {
        if j >= n {
            return j;
        }
        let c = s.get_char(j);
        if !(c >= '0' && c <= '9') {
            return j;
        }
        j = j + 1;
    }
}

/// Steps over the identifier characters starting at `i`.
fn skip_ident_chars(s: &str, i: usize) -> (r: usize)
    requires
        i <= s@.len(),
    ensures
        r as int == ident_end(s@, i as int),
        i <= r <= s@.len(),
{
    let n = s.unicode_len();
    let mut j = i;
    loop
        invariant
            n == s@.len(),
            i <= j <= n,
            ident_end(s@, i as int) == ident_end(s@, j as int),
        decreases n - j,
    {
        if j >= n {
            return j;
        }
        let c = s.get_char(j);
        if !((c >= 'a' && c <= 'z') || (c >= 'A' && c <= 'Z') || (c >= '0' && c <= '9') || c
            == '_') {
            return j;
        }
        j = j + 1;
    }
}

/// Reads the decimal number starting at `i`: the whole digit run, whose
/// value must fit 32 bits.
fn scan_u32(s: &str, i: usize) -> (r: Option<(u32, usize)>)
    requires
        i <= s@.len(),
    ensures
        (match r {
            Some(p) => ({
                let end = digits_end(s@, i as int);
                &&& p.1 as int == end
                &&& i < p.1 <= s@.len()
                &&& spec_parse_u64(s@.subrange(i as int, end), 10) == Some(p.0 as u64)
            }),
            None => ({
                let end = digits_end(s@, i as int);
                ||| end == i
                ||| (match spec_parse_u64(s@.subrange(i as int, end), 10) {
                    Some(v) => v > u32::MAX,
                    None => true,
                })
            }),
        }),
{
    let end = skip_digits(s, i);
    if end == i {
        return None;
    }
    let sub = s.substring_char(i, end);
    match parse_u64_radix(sub, 10) {
        Some(v) => if v <= u32::MAX as u64 {
            Some((v as u32, end))
        } else {
            None
        },
        None => None,
    }
}

/// Reads the identifier starting at `i`: a run of letters, digits and
/// underscores that does not begin with a digit.
fn scan_ident(s: &str, i: usize) -> (r: Option<(String, usize)>)
    requires
        i <= s@.len(),
    ensures
        (match r {
            Some(p) => ({
                let end = ident_end(s@, i as int);
                &&& p.1 as int == end
                &&& i < p.1 <= s@.len()
                &&& p.0@ == s@.subrange(i as int, end)
            }),
            None => i as int == s@.len() || !is_ident_char(s@[i as int]) || is_digit_char(
                s@[i as int],
            ),
        }),
{
    let n = s.unicode_len();
    if i >= n {
        return None;
    }
    let c = s.get_char(i);
    if c >= '0' && c <= '9' {
        return None;
    }
    if !((c >= 'a' && c <= 'z') || (c >= 'A' && c <= 'Z') || c == '_') {
        return None;
    }
    proof {
        assert(is_ident_char(s@[i as int]));
    }
    let end = skip_ident_chars(s, i + 1);
    proof {
        assert(ident_end(s@, i as int) == ident_end(s@, i as int + 1));
    }
    let sub = s.substring_char(i, end);
    Some((sub.to_owned(), end))
}

/// Steps over the single expected character, any leading whitespace
/// skipped.
fn expect_char(s: &str, i: usize, c: char) -> (r: Result<usize, ParseError>)
    requires
        i <= s@.len(),
    ensures
        (r matches Ok(j) ==> i < j <= s@.len()),
{
    let j = skip_ws(s, i);
    if j < s.unicode_len() && s.get_char(j) == c {
        Ok(j + 1)
    } else {
        Err(ParseError { at: j })
    }
}

/// Parses one bitfield `to:from` with its optional name.
fn parse_field(s: &str, i: usize) -> (r: Result<(Bitfield, usize), ParseError>)
    requires
        i <= s@.len(),
    ensures
        (r matches Ok(p) ==> p.0.wf() && i <= p.1 <= s@.len()),
{
    let j = skip_ws(s, i);
    let (to, j) = match scan_u32(s, j) {
        Some(p) => p,
        None => return Err(ParseError { at: j }),
    };
    let j = match expect_char(s, j, ':') {
        Ok(j) => j,
        Err(e) => return Err(e),
    };
    let jw = skip_ws(s, j);
    let (from, j) = match scan_u32(s, jw) {
        Some(p) => p,
        None => return Err(ParseError { at: jw }),
    };
    if from > to {
        return Err(ParseError { at: jw });
    }
    let jw = skip_ws(s, j);
    let (name, j) = match scan_ident(s, jw) {
        Some(p) => p,
        None => (String::new(), j),
    };
    Ok((Bitfield { to, from, name }, j))
}

/// Parses the bitfield list after its opening brace, up to and over the
/// closing brace.
fn parse_fields(s: &str, i: usize) -> (r: Result<(Vec<Bitfield>, usize), ParseError>)
    requires
        i <= s@.len(),
    ensures
        (r matches Ok(p) ==> i <= p.1 <= s@.len() && forall|k: int|
            0 <= k < p.0@.len() ==> (#[trigger] p.0@[k]).wf()),
{
    let n = s.unicode_len();
    let sw = skip_ws(s, i);
    if sw < n && s.get_char(sw) == '}' {
        return Ok((Vec::new(), sw + 1));
    }
    let mut fields: Vec<Bitfield> = Vec::new();
    let mut j = i;
    loop
        invariant
            n == s@.len(),
            i <= j <= n,
            forall|k: int| 0 <= k < fields@.len() ==> (#[trigger] fields@[k]).wf(),
        decreases n - j,
    {
        let (f, j2) = match parse_field(s, j) {
            Ok(p) => p,
            Err(e) => return Err(e),
        };
        fields.push(f);
        let sw = skip_ws(s, j2);
        if sw >= n {
            return Err(ParseError { at: sw });
        }
        let c = s.get_char(sw);
        if c == ',' {
            j = sw + 1;
        } else if c == '}' {
            return Ok((fields, sw + 1));
        } else {
            return Err(ParseError { at: sw });
        }
    }
}

/// Parses one register declaration, with its optional array prelude.
fn parse_register(s: &str, i: usize) -> (r: Result<(Register, usize), ParseError>)
    requires
        i <= s@.len(),
    ensures
        (r matches Ok(p) ==> p.0.wf() && i < p.1 <= s@.len()),
{
    let sw = skip_ws(s, i);
    let (word, mut j) = match scan_ident(s, sw) {
        Some(p) => p,
        None => return Err(ParseError { at: sw }),
    };
    let mut array: Option<Range> = None;
    if str_eq(word.as_str(), "array") {
        let j1 = match expect_char(s, j, '[') {
            Ok(j1) => j1,
            Err(e) => return Err(e),
        };
        let jw = skip_ws(s, j1);
        let (afrom, j1) = match scan_u32(s, jw) {
            Some(p) => p,
            None => return Err(ParseError { at: jw }),
        };
        let j1 = match expect_char(s, j1, '.') {
            Ok(j1) => j1,
            Err(e) => return Err(e),
        };
        if !(j1 < s.unicode_len() && s.get_char(j1) == '.') {
            return Err(ParseError { at: j1 });
        }
        let j1 = j1 + 1;
        let jw = skip_ws(s, j1);
        let (ato, j1) = match scan_u32(s, jw) {
            Some(p) => p,
            None => return Err(ParseError { at: jw }),
        };
        let j1 = match expect_char(s, j1, ']') {
            Ok(j1) => j1,
            Err(e) => return Err(e),
        };
        let jw = skip_ws(s, j1);
        let (of_word, j1) = match scan_ident(s, jw) {
            Some(p) => p,
            None => return Err(ParseError { at: jw }),
        };
        if !str_eq(of_word.as_str(), "of") {
            return Err(ParseError { at: jw });
        }
        array = Some(Range { from: afrom, to: ato });
        let jw = skip_ws(s, j1);
        let (kw, j2) = match scan_ident(s, jw) {
            Some(p) => p,
            None => return Err(ParseError { at: jw }),
        };
        if !str_eq(kw.as_str(), "__register") {
            return Err(ParseError { at: jw });
        }
        j = j2;
    } else if !str_eq(word.as_str(), "__register") {
        return Err(ParseError { at: sw });
    }
    let jw = skip_ws(s, j);
    let (bits, j) = match scan_u32(s, jw) {
        Some(p) => p,
        None => return Err(ParseError { at: jw }),
    };
    if bits < 1 {
        return Err(ParseError { at: jw });
    }
    let j = match expect_char(s, j, '{') {
        Ok(j) => j,
        Err(e) => return Err(e),
    };
    let (fields, j) = match parse_fields(s, j) {
        Ok(p) => p,
        Err(e) => return Err(e),
    };
    let jw = skip_ws(s, j);
    let (name, j) = match scan_ident(s, jw) {
        Some(p) => p,
        None => return Err(ParseError { at: jw }),
    };
    let j = match expect_char(s, j, ';') {
        Ok(j) => j,
        Err(e) => return Err(e),
    };
    let reg = Register { bits, name, bits_desc: fields, array };
    proof {
        assert forall|k: int| 0 <= k < reg@.fields.len() implies 0 <= (
        #[trigger] reg@.fields[k]).from <= reg@.fields[k].to by {
            assert(reg@.fields[k] == reg.bits_desc@[k]@);
            assert(reg.bits_desc@[k].wf());
        }
    }
    Ok((reg, j))
}

/// Parses one statement starting at `i`, which must not be whitespace: a
/// comment line, or a register declaration.
fn statement_at(s: &str, i: usize) -> (r: Result<(Statement, usize), ParseError>)
    requires
        i <= s@.len(),
    ensures
        (r matches Ok(p) ==> i < p.1 <= s@.len() && (p.0 matches Statement::Register(reg)
            ==> reg.wf())),
        (i + 1 < s@.len() && s@[i as int] == '/' && s@[i as int + 1] == '/' ==> (r matches Ok(p)
            && p.0 is Comment)),
{
    let n = s.unicode_len();
    if n - i >= 2 && s.get_char(i) == '/' && s.get_char(i + 1) == '/' {
        let mut j = i + 2;
        while j < n && s.get_char(j) != '\n'
            invariant
                n == s@.len(),
                i + 2 <= j <= n,
            decreases n - j,
        {
            j = j + 1;
        }
        let j = if j < n {
            j + 1
        } else {
            j
        };
        return Ok((Statement::Comment, j));
    }
    match parse_register(s, i) {
        Ok((reg, j)) => Ok((Statement::Register(reg), j)),
        Err(e) => Err(e),
    }
}

/// Parses one statement, demanding that nothing but whitespace follows.
pub fn parse_statement(input: &str) -> (r: Result<Statement, ParseError>)
    ensures
        (r matches Ok(st) ==> (st matches Statement::Register(reg) ==> reg.wf())),
{
    let sw = skip_ws(input, 0);
    let (st, j) = match statement_at(input, sw) {
        Ok(p) => p,
        Err(e) => return Err(e),
    };
    let jw = skip_ws(input, j);
    if jw < input.unicode_len() {
        return Err(ParseError { at: jw });
    }
    Ok(st)
}

/// Parses a whole program: a sequence of comments and register
/// declarations. Every raw register handed back is well formed, as the
/// catalog builder expects.
pub fn parse_program(input: &str) -> (r: Result<Vec<Statement>, ParseError>)
    ensures
        (r matches Ok(stmts) ==> forall|k: int|
            0 <= k < stmts@.len() ==> ((#[trigger] stmts@[k]) matches Statement::Register(reg)
                ==> reg.wf())),
        (ws_end(input@, 0) == input@.len() ==> (r matches Ok(stmts) && stmts@.len() == 0)),
{
    let n = input.unicode_len();
    let mut stmts: Vec<Statement> = Vec::new();
    let mut pos: usize = 0;
    loop
        invariant
            n == input@.len(),
            0 <= pos <= n,
            forall|k: int|
                0 <= k < stmts@.len() ==> ((#[trigger] stmts@[k]) matches Statement::Register(reg)
                    ==> reg.wf()),
            ws_end(input@, 0) == n ==> pos == 0 && stmts@.len() == 0,
        decreases n - pos,
    {
        let sw = skip_ws(input, pos);
        if sw >= n {
            return Ok(stmts);
        }
        let (st, j) = match statement_at(input, sw) {
            Ok(p) => p,
            Err(e) => return Err(e),
        };
        stmts.push(st);
        pos = j;
    }
}

} // verus!
