use vstd::prelude::*;
use vstd::string::StrSliceExecFns;
use vstd::string::StringExecFns;

use crate::lexer::{char_is_white_space, is_white_space, white_space_len};

verus! {

/// The grammar rule that a parse-tree node instantiates.
#[derive(Debug, Clone, Copy, PartialEq, Eq)]
pub enum Rule {
    ProgramKeyword,
    ProgramName,
    DeclareVariable,
    AssignToVariable,
    CallFunction,
    DoStatement,
    EndProgramKeyword,
    NonNestNewLine,
    Num,
    Add,
    Eoi,
    Identifier,
    VariableType,
    FuncName,
    FuncArgs,
    DoKeyword,
    DoVariable,
    RangeExpr,
    DoLoopBody,
    EndDoKeyword,
    Other,
}

/// A node of the parse tree: its rule, its byte span `[start, end)` in the
/// source, the text of that span, and its children in document order.
pub struct ParseNode {
    pub rule: Rule,
    pub start: usize,
    pub end: usize,
    pub text: String,
    pub children: Vec<ParseNode>,
}

/// Why a parse tree could not be translated.
#[derive(Debug, Clone, Copy, PartialEq, Eq)]
pub enum TranslateError {
    /// A node of this rule and span stands where no rule of that kind is handled.
    UnexpectedRule(Rule, usize, usize),
    /// A declared type, at this span, is neither `integer` nor `real`.
    UnknownType(usize, usize),
    /// A loop range, at this span, is not of the form `N, M`.
    MalformedRange(usize, usize),
}

pub type Emitted = Result<Seq<char>, TranslateError>;

/// `a` followed by `b`; the first error wins.
pub open spec fn join(a: Emitted, b: Emitted) -> Emitted {
    match a {
        Err(e) => Err(e),
        Ok(x) => match b {
            Err(e) => Err(e),
            Ok(y) => Ok(x + y),
        },
    }
}

/// Four spaces for each level of nesting.
pub open spec fn indent(depth: nat) -> Seq<char> {
    Seq::new(4 * depth, |_i: int| ' ')
}

/// The number of whitespace chars at the end of `s`.
pub open spec fn trailing_white_space_len(s: Seq<char>) -> nat
    decreases s.len(),
{
    if s.len() > 0 && is_white_space(s.last()) {
        1 + trailing_white_space_len(s.drop_last())
    } else {
        0
    }
}

/// `s` without its leading and trailing whitespace.
pub open spec fn trim(s: Seq<char>) -> Seq<char> {
    let t = s.skip(white_space_len(s) as int);
    t.take(t.len() - trailing_white_space_len(t))
}

/// The two bounds that the pattern `(\d+),\s*(\d+)` captures in `s`, at its
/// leftmost match.
pub uninterp spec fn range_bounds_of(s: Seq<char>) -> Option<(Seq<char>, Seq<char>)>;

/// The Rust type that a declared type name maps to.
pub open spec fn native_type(name: Seq<char>) -> Option<Seq<char>> {
    if name == "integer"@ {
        Some("usize"@)
    } else if name == "real"@ {
        Some("f64"@)
    } else {
        None
    }
}

pub open spec fn unexpected(n: ParseNode) -> TranslateError {
    TranslateError::UnexpectedRule(n.rule, n.start, n.end)
}

/// What a variable declaration emits from its child `i` on, given the name
/// and type captured so far.
pub open spec fn declare_from(cs: Seq<ParseNode>, i: int, name: Seq<char>, ty: Seq<char>, depth: nat) -> Emitted
    decreases cs.len() - i,
{
    if i < 0 || i >= cs.len() {
        Ok(Seq::empty())
    } else {
        let c = cs[i];
        let captured: Result<(Seq<char>, Seq<char>), TranslateError> = match c.rule {
            Rule::Identifier => Ok((c.text@, ty)),
            Rule::VariableType => match native_type(c.text@) {
                Some(t) => Ok((name, t)),
                None => Err(TranslateError::UnknownType(c.start, c.end)),
            },
            _ => Err(unexpected(c)),
        };
        match captured {
            Err(e) => Err(e),
            Ok((n, t)) => {
                let line = if n.len() > 0 && t.len() > 0 {
                    indent(depth) + "let mut "@ + n + ": "@ + t + ";\n"@
                } else {
                    Seq::empty()
                };
                join(Ok(line), declare_from(cs, i + 1, n, t, depth))
            },
        }
    }
}

/// The name and value that an assignment captures from its child `i` on.
pub open spec fn assign_from(cs: Seq<ParseNode>, i: int, name: Seq<char>, value: Seq<char>) -> Result<(Seq<char>, Seq<char>), TranslateError>
    decreases cs.len() - i,
{
    if i < 0 || i >= cs.len() {
        Ok((name, value))
    } else {
        let c = cs[i];
        match c.rule {
            Rule::Identifier => assign_from(cs, i + 1, trim(c.text@), value),
            Rule::Num => assign_from(cs, i + 1, name, c.text@),
            _ => Err(unexpected(c)),
        }
    }
}

/// What an assignment emits.
pub open spec fn emit_assign(n: ParseNode, depth: nat) -> Emitted {
    match assign_from(n.children@, 0, Seq::empty(), Seq::empty()) {
        Err(e) => Err(e),
        Ok((name, value)) => if name.len() > 0 || value.len() > 0 {
            Ok(indent(depth) + name + " = "@ + value + ";\n"@)
        } else {
            Ok(Seq::empty())
        },
    }
}

/// What a call emits from its child `i` on, before the closing `);`.
pub open spec fn call_from(cs: Seq<ParseNode>, i: int, depth: nat) -> Emitted
    decreases cs.len() - i,
{
    if i < 0 || i >= cs.len() {
        Ok(Seq::empty())
    } else {
        let c = cs[i];
        let piece = match c.rule {
            Rule::FuncName => if c.text@ == "print"@ {
                Ok(indent(depth) + "println!(\"{}\", "@)
            } else {
                Ok(c.text@ + "("@)
            },
            Rule::FuncArgs => Ok(c.text@),
            _ => Err(unexpected(c)),
        };
        join(piece, call_from(cs, i + 1, depth))
    }
}

/// What a counted loop emits from its child `i` on.
pub open spec fn do_from(cs: Seq<ParseNode>, i: int, depth: nat) -> Emitted
    decreases cs.len() - i,
{
    if i < 0 || i >= cs.len() {
        Ok(Seq::empty())
    } else {
        let c = cs[i];
        let piece = match c.rule {
            Rule::DoKeyword => Ok(indent(depth) + "for "@),
            Rule::DoVariable => Ok(trim(c.text@) + " in "@),
            Rule::RangeExpr => match range_bounds_of(c.text@) {
                Some((lower, upper)) => Ok(range_header(lower, upper)),
                None => Err(TranslateError::MalformedRange(c.start, c.end)),
            },
            Rule::DoLoopBody => Ok(indent(depth) + "    "@ + c.text@),
            Rule::EndDoKeyword => Ok(indent(depth) + "};\n"@),
            _ => Err(unexpected(c)),
        };
        join(piece, do_from(cs, i + 1, depth))
    }
}

/// The half-open range that a loop from `lower` to `upper` iterates over,
/// opening the loop's block.
pub open spec fn range_header(lower: Seq<char>, upper: Seq<char>) -> Seq<char> {
    lower + ".."@ + upper + " {\n"@
}

/// What the top-level nodes emit from node `i` on, at nesting `depth`.
pub open spec fn emit_from(nodes: Seq<ParseNode>, i: int, depth: nat) -> Emitted
    decreases nodes.len() - i,
{
    if i < 0 || i >= nodes.len() {
        Ok(Seq::empty())
    } else {
        let n = nodes[i];
        match n.rule {
            Rule::ProgramKeyword => join(Ok("fn "@), emit_from(nodes, i + 1, depth)),
            Rule::ProgramName => join(Ok(n.text@ + "() {\n"@), emit_from(nodes, i + 1, depth + 1)),
            Rule::DeclareVariable => join(
                declare_from(n.children@, 0, Seq::empty(), Seq::empty(), depth),
                emit_from(nodes, i + 1, depth),
            ),
            Rule::AssignToVariable => join(emit_assign(n, depth), emit_from(nodes, i + 1, depth)),
            Rule::CallFunction => join(
                join(call_from(n.children@, 0, depth), Ok(");"@)),
                emit_from(nodes, i + 1, depth),
            ),
            Rule::DoStatement => join(do_from(n.children@, 0, depth), emit_from(nodes, i + 1, depth)),
            Rule::EndProgramKeyword => join(
                Ok("\n}\n"@),
                emit_from(nodes, i + 1, if depth > 0 { (depth - 1) as nat } else { 0 }),
            ),
            Rule::NonNestNewLine => emit_from(nodes, i + 1, depth),
            Rule::Num => join(Ok(n.text@), emit_from(nodes, i + 1, depth)),
            Rule::Add => join(Ok(" + "@), emit_from(nodes, i + 1, depth)),
            Rule::Eoi => Ok(Seq::empty()),
            _ => Err(unexpected(n)),
        }
    }
}

/// What a parse tree's top-level nodes translate to.
pub open spec fn translation(nodes: Seq<ParseNode>) -> Emitted {
    emit_from(nodes, 0, 0)
}

proof fn lemma_join_ok(x: Seq<char>, y: Seq<char>, r: Emitted)
    ensures
        join(Ok(x), join(Ok(y), r)) == join(Ok(x + y), r),
{
    if let Ok(z) = r {
        assert(x + (y + z) =~= x + y + z);
    }
}

/// Relies on regex::Regex::captures with the pattern `(\d+),\s*(\d+)`: the
/// texts of its two groups at the leftmost match, or `None` where it does not
/// match.
#[verifier::external_body]
fn range_bounds(text: &str) -> (r: Option<(String, String)>)
    ensures
        match r {
            Some((lower, upper)) => range_bounds_of(text@) == Some((lower@, upper@)),
            None => range_bounds_of(text@) is None,
        },
{
    let re = regex::Regex::new(r"(\d+),\s*(\d+)").unwrap();
    re.captures(text).map(|caps| (caps[1].to_string(), caps[2].to_string()))
}

/// `s` without its leading and trailing whitespace.
fn trimmed(s: &str) -> (r: String)
    ensures
        r@ == trim(s@),
{
    let len = s.unicode_len();
    let mut a: usize = 0;
    proof {
        assert(s@.skip(0) =~= s@);
    }
    while a < len && char_is_white_space(s.get_char(a))
        invariant
            len == s@.len(),
            a <= len,
            white_space_len(s@) == a + white_space_len(s@.skip(a as int)),
        decreases len - a,
    {
        proof {
            assert(s@.skip(a as int).drop_first() =~= s@.skip(a + 1));
        }
        a = a + 1;
    }
    proof {
        if a < len {
            assert(s@.skip(a as int)[0] == s@[a as int]);
        }
        assert(white_space_len(s@) == a);
    }
    let ghost t = s@.skip(a as int);
    let mut b: usize = len;
    proof {
        assert(s@.subrange(a as int, len as int) =~= t);
    }
    while b > a && char_is_white_space(s.get_char(b - 1))
        invariant
            len == s@.len(),
            a <= b <= len,
            t == s@.skip(a as int),
            trailing_white_space_len(t) == (len - b) + trailing_white_space_len(
                s@.subrange(a as int, b as int),
            ),
        decreases b,
    {
        proof {
            assert(s@.subrange(a as int, b as int).drop_last() =~= s@.subrange(a as int, b - 1));
        }
        b = b - 1;
    }
    proof {
        if b > a {
            assert(s@.subrange(a as int, b as int).last() == s@[b - 1]);
        }
        assert(t.take(t.len() - trailing_white_space_len(t)) =~= s@.subrange(a as int, b as int));
    }
    String::from_str(s.substring_char(a, b))
}

/// Whether `s` holds exactly the chars of `lit`.
fn text_is(s: &String, lit: &str) -> (r: bool)
    ensures
        r == (s@ == lit@),
{
    *s == String::from_str(lit)
}

/// Whether `s` holds no chars.
fn is_blank(s: &String) -> (r: bool)
    ensures
        r == (s@.len() == 0),
{
    s.as_str().unicode_len() == 0
}

/// Appends four spaces for each level of nesting.
pub fn print_offset(out: &mut String, nest_times: usize)
    ensures
        final(out)@ == old(out)@ + indent(nest_times as nat),
{
    let mut j: usize = 0;
    proof {
        assert(old(out)@ + indent(0) =~= old(out)@);
    }
    while j < nest_times
        invariant
            j <= nest_times,
            out@ == old(out)@ + indent(j as nat),
        decreases nest_times - j,
    {
        out.append("    ");
        proof {
            reveal_strlit("    ");
            assert(old(out)@ + indent(j as nat) + "    "@ =~= old(out)@ + indent((j + 1) as nat));
        }
        j = j + 1;
    }
}

/// The half-open range of a loop from `lower` to `upper`, opening its block.
pub fn range_header_text(lower: &str, upper: &str) -> (r: String)
    ensures
        r@ == range_header(lower@, upper@),
{
    let mut out = String::new();
    out.append(lower);
    out.append("..");
    out.append(upper);
    out.append(" {\n");
    proof {
        assert(out@ =~= range_header(lower@, upper@));
    }
    out
}

pub open spec fn emitted(r: Result<String, TranslateError>) -> Emitted {
    match r {
        Ok(s) => Ok(s@),
        Err(e) => Err(e),
    }
}

/// Emits a variable declaration: `let mut name: type;` once both are captured.
pub fn parse_declare_variable(pair: &ParseNode, nest_times: usize) -> (r: Result<String, TranslateError>)
    ensures
        emitted(r) == declare_from(pair.children@, 0, Seq::empty(), Seq::empty(), nest_times as nat),
{
    let cs = &pair.children;
    let mut out = String::new();
    let mut variable_name = String::new();
    let mut variable_type = String::new();
    let mut i: usize = 0;
    proof {
        assert(Seq::<char>::empty() + Seq::<char>::empty() =~= Seq::<char>::empty());
    }
    while i < cs.len()
        invariant
            i <= cs@.len(),
            cs@ == pair.children@,
            declare_from(cs@, 0, Seq::empty(), Seq::empty(), nest_times as nat) == join(
                Ok(out@),
                declare_from(cs@, i as int, variable_name@, variable_type@, nest_times as nat),
            ),
        decreases cs@.len() - i,
    {
        let c = &cs[i];
        match c.rule {
            Rule::Identifier => {
                variable_name = c.text.clone();
            },
            Rule::VariableType => {
                if text_is(&c.text, "integer") {
                    variable_type = String::from_str("usize");
                } else if text_is(&c.text, "real") {
                    variable_type = String::from_str("f64");
                } else {
                    return Err(TranslateError::UnknownType(c.start, c.end));
                }
            },
            _ => {
                return Err(TranslateError::UnexpectedRule(c.rule, c.start, c.end));
            },
        }
        let mut line = String::new();
        if !is_blank(&variable_name) && !is_blank(&variable_type) {
            print_offset(&mut line, nest_times);
            line.append("let mut ");
            line.append(variable_name.as_str());
            line.append(": ");
            line.append(variable_type.as_str());
            line.append(";\n");
        }
        proof {
            lemma_join_ok(out@, line@, declare_from(cs@, i + 1, variable_name@, variable_type@, nest_times as nat));
            assert(line@ =~= if variable_name@.len() > 0 && variable_type@.len() > 0 {
                indent(nest_times as nat) + "let mut "@ + variable_name@ + ": "@ + variable_type@ + ";\n"@
            } else {
                Seq::empty()
            });
        }
        out.append(line.as_str());
        i = i + 1;
    }
    proof {
        assert(out@ + Seq::<char>::empty() =~= out@);
    }
    Ok(out)
}

/// Emits an assignment `name = value;`, where either was captured.
pub fn parse_assign_to_variable(pair: &ParseNode, nest_times: usize) -> (r: Result<String, TranslateError>)
    ensures
        emitted(r) == emit_assign(*pair, nest_times as nat),
{
    let cs = &pair.children;
    let mut variable_name = String::new();
    let mut variable_value = String::new();
    let mut i: usize = 0;
    while i < cs.len()
        invariant
            i <= cs@.len(),
            cs@ == pair.children@,
            assign_from(cs@, 0, Seq::empty(), Seq::empty()) == assign_from(
                cs@,
                i as int,
                variable_name@,
                variable_value@,
            ),
        decreases cs@.len() - i,
    {
        let c = &cs[i];
        match c.rule {
            Rule::Identifier => {
                variable_name = trimmed(c.text.as_str());
            },
            Rule::Num => {
                variable_value = c.text.clone();
            },
            _ => {
                return Err(TranslateError::UnexpectedRule(c.rule, c.start, c.end));
            },
        }
        i = i + 1;
    }
    let mut out = String::new();
    if !is_blank(&variable_name) || !is_blank(&variable_value) {
        print_offset(&mut out, nest_times);
        out.append(variable_name.as_str());
        out.append(" = ");
        out.append(variable_value.as_str());
        out.append(";\n");
    }
    proof {
        assert(out@ =~= if variable_name@.len() > 0 || variable_value@.len() > 0 {
            indent(nest_times as nat) + variable_name@ + " = "@ + variable_value@ + ";\n"@
        } else {
            Seq::empty()
        });
    }
    Ok(out)
}

/// Emits a call: `println!("{}", args);` for `print`, `name(args);` otherwise.
pub fn parse_call_func(pair: &ParseNode, nest_times: usize) -> (r: Result<String, TranslateError>)
    ensures
        emitted(r) == join(call_from(pair.children@, 0, nest_times as nat), Ok(");"@)),
{
    let cs = &pair.children;
    let mut out = String::new();
    let mut i: usize = 0;
    proof {
        assert(Seq::<char>::empty() + call_from(cs@, 0, nest_times as nat)->Ok_0 =~= call_from(cs@, 0, nest_times as nat)->Ok_0);
    }
    while i < cs.len()
        invariant
            i <= cs@.len(),
            cs@ == pair.children@,
            call_from(cs@, 0, nest_times as nat) == join(Ok(out@), call_from(cs@, i as int, nest_times as nat)),
        decreases cs@.len() - i,
    {
        let c = &cs[i];
        let mut piece = String::new();
        match c.rule {
            Rule::FuncName => {
                if text_is(&c.text, "print") {
                    print_offset(&mut piece, nest_times);
                    piece.append("println!(\"{}\", ");
                } else {
                    piece.append(c.text.as_str());
                    piece.append("(");
                }
            },
            Rule::FuncArgs => {
                piece.append(c.text.as_str());
            },
            _ => {
                return Err(TranslateError::UnexpectedRule(c.rule, c.start, c.end));
            },
        }
        proof {
            let d = nest_times as nat;
            assert(piece@ =~= match c.rule {
                Rule::FuncName => if c.text@ == "print"@ {
                    indent(d) + "println!(\"{}\", "@
                } else {
                    c.text@ + "("@
                },
                _ => c.text@,
            });
            lemma_join_ok(out@, piece@, call_from(cs@, i + 1, d));
        }
        out.append(piece.as_str());
        i = i + 1;
    }
    proof {
        assert(out@ + Seq::<char>::empty() =~= out@);
    }
    out.append(");");
    Ok(out)
}

/// Emits a counted loop: `for v in lower..upper {`, its body one level
/// deeper, and the closing brace.
pub fn parse_do_statement(pair: &ParseNode, nest_times: usize) -> (r: Result<String, TranslateError>)
    ensures
        emitted(r) == do_from(pair.children@, 0, nest_times as nat),
{
    let cs = &pair.children;
    let mut out = String::new();
    let mut i: usize = 0;
    proof {
        if let Ok(x) = do_from(cs@, 0, nest_times as nat) {
            assert(Seq::<char>::empty() + x =~= x);
        }
    }
    while i < cs.len()
        invariant
            i <= cs@.len(),
            cs@ == pair.children@,
            do_from(cs@, 0, nest_times as nat) == join(Ok(out@), do_from(cs@, i as int, nest_times as nat)),
        decreases cs@.len() - i,
    {
        let c = &cs[i];
        let mut piece = String::new();
        match c.rule {
            Rule::DoKeyword => {
                print_offset(&mut piece, nest_times);
                piece.append("for ");
            },
            Rule::DoVariable => {
                let v = trimmed(c.text.as_str());
                piece.append(v.as_str());
                piece.append(" in ");
            },
            Rule::RangeExpr => {
                match range_bounds(c.text.as_str()) {
                    Some((lower, upper)) => {
                        let h = range_header_text(lower.as_str(), upper.as_str());
                        piece.append(h.as_str());
                    },
                    None => {
                        return Err(TranslateError::MalformedRange(c.start, c.end));
                    },
                }
            },
            Rule::DoLoopBody => {
                print_offset(&mut piece, nest_times);
                piece.append("    ");
                piece.append(c.text.as_str());
            },
            Rule::EndDoKeyword => {
                print_offset(&mut piece, nest_times);
                piece.append("};\n");
            },
            _ => {
                return Err(TranslateError::UnexpectedRule(c.rule, c.start, c.end));
            },
        }
        proof {
            let d = nest_times as nat;
            assert(Ok::<Seq<char>, TranslateError>(piece@) == match c.rule {
                Rule::DoKeyword => Ok(indent(d) + "for "@),
                Rule::DoVariable => Ok(trim(c.text@) + " in "@),
                Rule::RangeExpr => Ok(range_header(range_bounds_of(c.text@)->Some_0.0, range_bounds_of(c.text@)->Some_0.1)),
                Rule::DoLoopBody => Ok(indent(d) + "    "@ + c.text@),
                _ => Ok::<Seq<char>, TranslateError>(indent(d) + "};\n"@),
            });
            lemma_join_ok(out@, piece@, do_from(cs@, i + 1, d));
        }
        out.append(piece.as_str());
        i = i + 1;
    }
    proof {
        assert(out@ + Seq::<char>::empty() =~= out@);
    }
    Ok(out)
}

/// Translates the top-level nodes of a parse tree in document order; stops at
/// the end-of-input marker.
pub fn parse(pairs: &Vec<ParseNode>) -> (r: Result<String, TranslateError>)
    ensures
        emitted(r) == translation(pairs@),
{
    let mut out = String::new();
    let mut nest_times: usize = 0;
    let mut i: usize = 0;
    proof {
        if let Ok(x) = emit_from(pairs@, 0, 0) {
            assert(Seq::<char>::empty() + x =~= x);
        }
    }
    while i < pairs.len()
        invariant
            i <= pairs@.len(),
            nest_times <= i,
            translation(pairs@) == join(Ok(out@), emit_from(pairs@, i as int, nest_times as nat)),
        decreases pairs@.len() - i,
    {
        let pair = &pairs[i];
        let ghost d = nest_times as nat;
        let ghost rest = emit_from(pairs@, i + 1, d);
        let piece: Result<String, TranslateError> = match pair.rule {
            Rule::ProgramKeyword => Ok(String::from_str("fn ")),
            Rule::ProgramName => {
                let mut p = String::new();
                p.append(pair.text.as_str());
                p.append("() {\n");
                nest_times = nest_times + 1;
                Ok(p)
            },
            Rule::DeclareVariable => parse_declare_variable(pair, nest_times),
            Rule::AssignToVariable => parse_assign_to_variable(pair, nest_times),
            Rule::CallFunction => parse_call_func(pair, nest_times),
            Rule::DoStatement => parse_do_statement(pair, nest_times),
            Rule::EndProgramKeyword => {
                if nest_times > 0 {
                    nest_times = nest_times - 1;
                }
                Ok(String::from_str("\n}\n"))
            },
            Rule::NonNestNewLine => Ok(String::new()),
            Rule::Num => Ok(pair.text.clone()),
            Rule::Add => Ok(String::from_str(" + ")),
            Rule::Eoi => {
                proof {
                    assert(out@ + Seq::<char>::empty() =~= out@);
                }
                return Ok(out);
            },
            _ => Err(TranslateError::UnexpectedRule(pair.rule, pair.start, pair.end)),
        };
        match piece {
            Ok(p) => {
                proof {
                    let e = emit_from(pairs@, i as int, d);
                    let next = emit_from(pairs@, i + 1, nest_times as nat);
                    if pair.rule == Rule::NonNestNewLine {
                        if let Ok(z) = next {
                            assert(p@ + z =~= z);
                        }
                    } else if pair.rule == Rule::ProgramName {
                        assert(p@ =~= pair.text@ + "() {\n"@);
                    }
                    assert(e == join(Ok(p@), next));
                    lemma_join_ok(out@, p@, next);
                }
                out.append(p.as_str());
            },
            Err(e) => {
                return Err(e);
            },
        }
        i = i + 1;
    }
    proof {
        assert(out@ + Seq::<char>::empty() =~= out@);
    }
    Ok(out)
}

/// A program made of a header, one declaration of a named variable, one
/// assignment of a number and a footer translates to one function: its
/// signature, then the declaration, then the assignment, each indented by one
/// level (four spaces), then the closing brace.
pub proof fn lemma_minimal_program(nodes: Seq<ParseNode>)
    requires
        nodes.len() == 6,
        nodes[0].rule == Rule::ProgramKeyword,
        nodes[1].rule == Rule::ProgramName,
        nodes[2].rule == Rule::DeclareVariable,
        nodes[2].children@.len() == 2,
        nodes[2].children@[0].rule == Rule::Identifier,
        nodes[2].children@[0].text@.len() > 0,
        nodes[2].children@[1].rule == Rule::VariableType,
        native_type(nodes[2].children@[1].text@) is Some,
        nodes[3].rule == Rule::AssignToVariable,
        nodes[3].children@.len() == 2,
        nodes[3].children@[0].rule == Rule::Identifier,
        nodes[3].children@[1].rule == Rule::Num,
        nodes[3].children@[1].text@.len() > 0,
        nodes[4].rule == Rule::EndProgramKeyword,
        nodes[5].rule == Rule::Eoi,
    ensures
        translation(nodes) == Emitted::Ok(
            "fn "@ + nodes[1].text@ + "() {\n"@ + indent(1) + "let mut "@
                + nodes[2].children@[0].text@ + ": "@ + native_type(
                nodes[2].children@[1].text@,
            )->Some_0 + ";\n"@ + indent(1) + trim(nodes[3].children@[0].text@) + " = "@
                + nodes[3].children@[1].text@ + ";\n"@ + "\n}\n"@,
        ),
{
    let name = nodes[1].text@;
    let dc = nodes[2].children@;
    let v = dc[0].text@;
    let ty = native_type(dc[1].text@)->Some_0;
    let ac = nodes[3].children@;
    let lhs = trim(ac[0].text@);
    let c = ac[1].text@;
    let decl = indent(1) + "let mut "@ + v + ": "@ + ty + ";\n"@;
    let assign = indent(1) + lhs + " = "@ + c + ";\n"@;

    assert(emit_from(nodes, 5, 0) == Emitted::Ok(Seq::empty()));
    assert(emit_from(nodes, 4, 1) == Emitted::Ok("\n}\n"@ + Seq::empty()));
    assert("\n}\n"@ + Seq::<char>::empty() =~= "\n}\n"@);

    assert(assign_from(ac, 2, lhs, c) == Ok::<(Seq<char>, Seq<char>), TranslateError>((lhs, c)));
    assert(assign_from(ac, 1, lhs, Seq::empty()) == assign_from(ac, 2, lhs, c));
    assert(assign_from(ac, 0, Seq::empty(), Seq::empty()) == assign_from(ac, 1, lhs, Seq::empty()));
    assert(emit_assign(nodes[3], 1) == Emitted::Ok(assign));
    assert(emit_from(nodes, 3, 1) == Emitted::Ok(assign + "\n}\n"@));

    reveal_strlit("usize");
    reveal_strlit("f64");
    assert(ty.len() > 0);
    assert(declare_from(dc, 2, v, ty, 1) == Emitted::Ok(Seq::empty()));
    assert(declare_from(dc, 1, v, Seq::empty(), 1) == join(Ok(decl), Emitted::Ok(Seq::empty())));
    assert(decl + Seq::<char>::empty() =~= decl);
    assert(declare_from(dc, 0, Seq::empty(), Seq::empty(), 1) == join(
        Ok(Seq::empty()),
        declare_from(dc, 1, v, Seq::empty(), 1),
    ));
    assert(Seq::<char>::empty() + decl =~= decl);
    assert(emit_from(nodes, 2, 1) == Emitted::Ok(decl + (assign + "\n}\n"@)));
    assert(emit_from(nodes, 1, 0) == Emitted::Ok(name + "() {\n"@ + (decl + (assign + "\n}\n"@))));
    assert(emit_from(nodes, 0, 0) == Emitted::Ok("fn "@ + (name + "() {\n"@ + (decl + (assign + "\n}\n"@)))));
    assert("fn "@ + (name + "() {\n"@ + (decl + (assign + "\n}\n"@))) =~= "fn "@ + name + "() {\n"@
        + indent(1) + "let mut "@ + v + ": "@ + ty + ";\n"@ + indent(1) + lhs + " = "@ + c
        + ";\n"@ + "\n}\n"@);
}

} // verus!
