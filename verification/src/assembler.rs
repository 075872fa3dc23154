//! The Transient assembler: eight passes from source lines to an instruction
//! list and a memory map of declared variables.
//!
//! Source lines are byte strings. Tokens are separated by a single space.
//! A line is a comment (`//`), a variable declaration (`set<BITS> $name
//! <decimal>`), a tag (`#name`), or an instruction (`<mnemonic><BITS>
//! <arg>...`); arguments are `$variable`, `#tag`, or an immediate
//! `!<BITS>_<VALUE>` that is lowered to a synthetic variable.
use crate::bytes::{dec_digits, parse_dec, parse_dec_spec, u64_to_dec};
use crate::isa::Operation;
use crate::text::{
    copy_bytes, find_byte, join_by, join_bytes_by, lemma_find_byte_spec, split_by, split_bytes_by,
    subvec, views,
};
use vstd::prelude::*;

verus! {

pub const B_SPACE: u8 = 32;

pub const B_BANG: u8 = 33;

pub const B_HASH: u8 = 35;

pub const B_DOLLAR: u8 = 36;

pub const B_SLASH: u8 = 47;

pub const B_UNDERSCORE: u8 = 95;

/// The structured diagnostics the assembler can raise. Every one is fatal:
/// assembly never proceeds past the first error.
#[derive(Debug, PartialEq, Eq, Structural, Clone, Copy)]
pub enum ErrorCode {
    /// A `set` line with a token count other than 3.
    MalformedSet,
    /// A declared variable name missing its leading `$`.
    MissingDollar,
    /// An unparseable or meaningless size suffix.
    BadSize,
    /// An unparseable declaration value.
    BadValue,
    /// A reference to a tag that is never defined.
    UnknownTag,
    /// A reference to a variable that is never declared.
    UnknownVariable,
    /// An instruction argument that is neither a `$` nor a `#` form.
    BadArgument,
    /// A wrong number of arguments for a mnemonic.
    ArityMismatch,
    /// A mnemonic that names no operation.
    UnknownMnemonic,
    /// A variable declared twice.
    DuplicateVariable,
    /// An immediate without its `_` size marker.
    ImmediateSyntax,
    /// An immediate whose value is not an unsigned integer.
    ImmediateValue,
}

/// A diagnostic as the specification sees it: the code and the offending
/// line verbatim.
#[verifier::ext_equal]
pub struct ErrSpec {
    pub code: ErrorCode,
    pub line: Seq<u8>,
}

/// A fatal diagnostic carrying the offending source line verbatim.
#[derive(Debug)]
pub struct Diagnostic {
    pub code: ErrorCode,
    pub line: Vec<u8>,
}

impl View for Diagnostic {
    type V = ErrSpec;

    open spec fn view(&self) -> ErrSpec {
        ErrSpec { code: self.code, line: self.line@ }
    }
}

/// A memory-map entry as the specification sees it.
#[verifier::ext_equal]
pub struct VarSpec {
    pub name: Seq<u8>,
    pub address: int,
    pub value: u64,
    pub width: int,
}

/// One declared variable: its name (without the `$`), its address in the
/// image, its initial value, and its width in bytes.
#[derive(Debug)]
pub struct VarEntry {
    pub name: Vec<u8>,
    pub address: usize,
    pub value: u64,
    pub width: usize,
}

impl View for VarEntry {
    type V = VarSpec;

    open spec fn view(&self) -> VarSpec {
        VarSpec {
            name: self.name@,
            address: self.address as int,
            value: self.value,
            width: self.width as int,
        }
    }
}

/// The memory-map views of a list of entries.
pub open spec fn var_views(v: Seq<VarEntry>) -> Seq<VarSpec> {
    Seq::new(v.len(), |i: int| v[i]@)
}

/// A tag binding as the specification sees it.
#[verifier::ext_equal]
pub struct TagSpec {
    pub name: Seq<u8>,
    pub address: int,
}

/// One tag binding: the name (without the `#`) and the text-section byte
/// offset of the instruction that follows the tag.
#[derive(Debug)]
pub struct TagEntry {
    pub name: Vec<u8>,
    pub address: usize,
}

impl View for TagEntry {
    type V = TagSpec;

    open spec fn view(&self) -> TagSpec {
        TagSpec { name: self.name@, address: self.address as int }
    }
}

pub open spec fn tag_views(v: Seq<TagEntry>) -> Seq<TagSpec> {
    Seq::new(v.len(), |i: int| v[i]@)
}

/// A whole-line comment.
pub open spec fn is_comment(l: Seq<u8>) -> bool {
    l.len() >= 2 && l[0] == B_SLASH && l[1] == B_SLASH
}

/// A tag line, or a tag argument token.
pub open spec fn starts_hash(l: Seq<u8>) -> bool {
    l.len() >= 1 && l[0] == B_HASH
}

pub open spec fn starts_dollar(l: Seq<u8>) -> bool {
    l.len() >= 1 && l[0] == B_DOLLAR
}

pub open spec fn starts_bang(l: Seq<u8>) -> bool {
    l.len() >= 1 && l[0] == B_BANG
}

/// A variable declaration line: one beginning with `set`.
pub open spec fn is_set_decl(l: Seq<u8>) -> bool {
    l.len() >= 3 && l[0] == 115 && l[1] == 101 && l[2] == 116
}

/// A line the text section counts: not blank, not a tag, not a comment, not
/// a declaration.
pub open spec fn is_instruction_line(l: Seq<u8>) -> bool {
    l.len() > 0 && !starts_hash(l) && !is_comment(l) && !is_set_decl(l)
}

fn line_is_comment(l: &Vec<u8>) -> (r: bool)
    ensures
        r == is_comment(l@),
{
    l.len() >= 2 && l[0] == B_SLASH && l[1] == B_SLASH
}

fn line_starts_hash(l: &Vec<u8>) -> (r: bool)
    ensures
        r == starts_hash(l@),
{
    l.len() >= 1 && l[0] == B_HASH
}

fn line_starts_dollar(l: &Vec<u8>) -> (r: bool)
    ensures
        r == starts_dollar(l@),
{
    l.len() >= 1 && l[0] == B_DOLLAR
}

fn line_starts_bang(l: &Vec<u8>) -> (r: bool)
    ensures
        r == starts_bang(l@),
{
    l.len() >= 1 && l[0] == B_BANG
}

fn line_is_set_decl(l: &Vec<u8>) -> (r: bool)
    ensures
        r == is_set_decl(l@),
{
    l.len() >= 3 && l[0] == 115 && l[1] == 101 && l[2] == 116
}

fn line_is_instruction(l: &Vec<u8>) -> (r: bool)
    ensures
        r == is_instruction_line(l@),
{
    l.len() > 0 && !line_starts_hash(l) && !line_is_comment(l) && !line_is_set_decl(l)
}

/// Byte-for-byte equality of two byte vectors.
pub fn bytes_eq(a: &Vec<u8>, b: &Vec<u8>) -> (r: bool)
    ensures
        r == (a@ == b@),
{
    if a.len() != b.len() {
        proof {
            assert(a@ != b@);
        }
        return false;
    }
    let mut i: usize = 0;
    while i < a.len()
        invariant
            0 <= i <= a@.len(),
            a@.len() == b@.len(),
            forall|j: int| 0 <= j < i ==> a@[j] == b@[j],
        decreases a@.len() - i,
    {
        if a[i] != b[i] {
            return false;
        }
        i = i + 1;
    }
    proof {
        assert(a@ =~= b@);
    }
    true
}

/// Pass 1: remove every line whose first characters are `//`. No other
/// normalization.
pub open spec fn strip_comments_spec(lines: Seq<Seq<u8>>) -> Seq<Seq<u8>>
    decreases lines.len(),
{
    if lines.len() == 0 {
        Seq::empty()
    } else {
        strip_comments_spec(lines.drop_last()) + if is_comment(lines.last()) {
            Seq::empty()
        } else {
            seq![lines.last()]
        }
    }
}

pub fn strip_comments(lines: &Vec<Vec<u8>>) -> (r: Vec<Vec<u8>>)
    ensures
        views(r@) == strip_comments_spec(views(lines@)),
{
    let mut r: Vec<Vec<u8>> = Vec::new();
    let mut i: usize = 0;
    while i < lines.len()
        invariant
            0 <= i <= lines@.len(),
            views(r@) == strip_comments_spec(views(lines@).take(i as int)),
        decreases lines@.len() - i,
    {
        let ghost pre = views(r@);
        if !line_is_comment(&lines[i]) {
            r.push(copy_bytes(&lines[i]));
        }
        proof {
            let vl = views(lines@);
            assert(vl.take(i + 1).drop_last() =~= vl.take(i as int));
            assert(vl.take(i + 1).last() == vl[i as int]);
            if is_comment(vl[i as int]) {
                assert(views(r@) =~= strip_comments_spec(vl.take(i + 1)));
            } else {
                assert(views(r@) =~= pre.push(lines@[i as int]@));
                assert(views(r@) =~= strip_comments_spec(vl.take(i + 1)));
            }
        }
        i = i + 1;
    }
    proof {
        assert(views(lines@).take(lines@.len() as int) =~= views(lines@));
    }
    r
}

/// What parsing an immediate token `!<BITS>_<VALUE>` yields: its bit width
/// and its value, or the diagnostic it raises.
pub open spec fn parse_imm_spec(token: Seq<u8>) -> Result<(u64, u64), ErrorCode> {
    let parts = split_by(token, B_UNDERSCORE);
    if parts.len() != 2 {
        Err(ErrorCode::ImmediateSyntax)
    } else {
        match parse_dec_spec(parts[0].skip(1)) {
            None => Err(ErrorCode::BadSize),
            Some(bits) => match parse_dec_spec(parts[1]) {
                None => Err(ErrorCode::ImmediateValue),
                Some(value) => Ok((bits, value)),
            },
        }
    }
}

/// Parses an immediate token (everything after its leading `!`): the part
/// before the `_` is the width in bits, the part after is the value.
pub fn parse_immediate(token: &Vec<u8>) -> (r: Result<(u64, u64), ErrorCode>)
    requires
        starts_bang(token@),
    ensures
        r == parse_imm_spec(token@),
{
    let parts = split_bytes_by(token, B_UNDERSCORE);
    if parts.len() != 2 {
        return Err(ErrorCode::ImmediateSyntax);
    }
    proof {
        lemma_find_byte_spec(token@, B_UNDERSCORE);
        match find_byte(token@, B_UNDERSCORE) {
            Some(fi) => {
                assert(fi >= 1);
                assert(views(parts@)[0] == token@.take(fi));
            },
            None => {
                assert(split_by(token@, B_UNDERSCORE).len() == 1);
            },
        }
    }
    let bits_txt = subvec(&parts[0], 1, parts[0].len());
    proof {
        assert(bits_txt@ =~= split_by(token@, B_UNDERSCORE)[0].skip(1));
    }
    let bits = match parse_dec(&bits_txt) {
        None => {
            return Err(ErrorCode::BadSize);
        },
        Some(bits) => bits,
    };
    let value = match parse_dec(&parts[1]) {
        None => {
            return Err(ErrorCode::ImmediateValue);
        },
        Some(value) => value,
    };
    Ok((bits, value))
}

/// The first diagnostic among a line's immediate tokens, if any.
pub open spec fn tokens_imm_error(ts: Seq<Seq<u8>>) -> Option<ErrorCode>
    decreases ts.len(),
{
    if ts.len() == 0 {
        None
    } else {
        match tokens_imm_error(ts.drop_last()) {
            Some(code) => Some(code),
            None => if starts_bang(ts.last()) && parse_imm_spec(ts.last()) is Err {
                Some(parse_imm_spec(ts.last())->Err_0)
            } else {
                None
            },
        }
    }
}

/// The first immediate diagnostic in the whole source, with its line.
pub open spec fn lines_imm_error(lines: Seq<Seq<u8>>) -> Option<ErrSpec>
    decreases lines.len(),
{
    if lines.len() == 0 {
        None
    } else {
        match lines_imm_error(lines.drop_last()) {
            Some(e) => Some(e),
            None => match tokens_imm_error(split_by(lines.last(), B_SPACE)) {
                Some(code) => Some(ErrSpec { code, line: lines.last() }),
                None => None,
            },
        }
    }
}

/// The immediate tokens of a token list, in order.
pub open spec fn keep_bang(ts: Seq<Seq<u8>>) -> Seq<Seq<u8>>
    decreases ts.len(),
{
    if ts.len() == 0 {
        Seq::empty()
    } else {
        keep_bang(ts.drop_last()) + if starts_bang(ts.last()) {
            seq![ts.last()]
        } else {
            Seq::empty()
        }
    }
}

/// Every immediate token of the source, line by line, token by token.
pub open spec fn bang_tokens(lines: Seq<Seq<u8>>) -> Seq<Seq<u8>>
    decreases lines.len(),
{
    if lines.len() == 0 {
        Seq::empty()
    } else {
        bang_tokens(lines.drop_last()) + keep_bang(split_by(lines.last(), B_SPACE))
    }
}

/// The distinct members of `s`, each at its first occurrence.
pub open spec fn dedup_first(s: Seq<Seq<u8>>) -> Seq<Seq<u8>>
    decreases s.len(),
{
    if s.len() == 0 {
        Seq::empty()
    } else {
        let p = dedup_first(s.drop_last());
        if p.contains(s.last()) {
            p
        } else {
            p.push(s.last())
        }
    }
}

/// One interned immediate: its token text (the interning key) and the width
/// and value the token denotes.
#[derive(Debug)]
pub struct ImmEntry {
    pub token: Vec<u8>,
    pub bits: u64,
    pub value: u64,
}

pub open spec fn imm_tokens(s: Seq<ImmEntry>) -> Seq<Seq<u8>> {
    Seq::new(s.len(), |i: int| s[i].token@)
}

fn imm_contains(imms: &Vec<ImmEntry>, token: &Vec<u8>) -> (r: bool)
    ensures
        r == imm_tokens(imms@).contains(token@),
{
    let mut i: usize = 0;
    while i < imms.len()
        invariant
            0 <= i <= imms@.len(),
            forall|k: int| 0 <= k < i ==> imm_tokens(imms@)[k] != token@,
        decreases imms@.len() - i,
    {
        if bytes_eq(&imms[i].token, token) {
            proof {
                assert(imm_tokens(imms@)[i as int] == token@);
            }
            return true;
        }
        i = i + 1;
    }
    proof {
        assert(forall|k: int| 0 <= k < imms@.len() ==> imm_tokens(imms@)[k] != token@);
    }
    false
}

/// Pass 2: scan every token of every line; each token beginning with `!`
/// must be a well-formed immediate. The distinct immediate tokens are
/// interned by their text, in first-occurrence order.
pub fn collect_immediates(lines: &Vec<Vec<u8>>) -> (r: Result<Vec<ImmEntry>, Diagnostic>)
    ensures
        match lines_imm_error(views(lines@)) {
            Some(e) => r is Err && r->Err_0@ == e,
            None => r is Ok && imm_tokens(r->Ok_0@) == dedup_first(bang_tokens(views(lines@)))
                && forall|k: int|
                0 <= k < r->Ok_0@.len() ==> parse_imm_spec(#[trigger] r->Ok_0@[k].token@) == Ok::<
                    (u64, u64),
                    ErrorCode,
                >((r->Ok_0@[k].bits, r->Ok_0@[k].value)),
        },
{
    let mut imms: Vec<ImmEntry> = Vec::new();
    let mut i: usize = 0;
    while i < lines.len()
        invariant
            0 <= i <= lines@.len(),
            lines_imm_error(views(lines@).take(i as int)) is None,
            imm_tokens(imms@) == dedup_first(bang_tokens(views(lines@).take(i as int))),
            forall|k: int|
                0 <= k < imms@.len() ==> parse_imm_spec(#[trigger] imms@[k].token@) == Ok::<
                    (u64, u64),
                    ErrorCode,
                >((imms@[k].bits, imms@[k].value)),
        decreases lines@.len() - i,
    {
        let line = &lines[i];
        let toks = split_bytes_by(line, B_SPACE);
        let ghost vt = split_by(line@, B_SPACE);
        let mut j: usize = 0;
        while j < toks.len()
            invariant
                0 <= j <= toks@.len(),
                views(toks@) == vt,
                vt == split_by(lines@[i as int]@, B_SPACE),
                0 <= i < lines@.len(),
                line == &lines@[i as int],
                tokens_imm_error(vt.take(j as int)) is None,
                lines_imm_error(views(lines@).take(i as int)) is None,
                imm_tokens(imms@) == dedup_first(
                    bang_tokens(views(lines@).take(i as int)) + keep_bang(vt.take(j as int)),
                ),
                forall|k: int|
                    0 <= k < imms@.len() ==> parse_imm_spec(#[trigger] imms@[k].token@) == Ok::<
                        (u64, u64),
                        ErrorCode,
                    >((imms@[k].bits, imms@[k].value)),
            decreases toks@.len() - j,
        {
            let tok = &toks[j];
            proof {
                assert(vt.take(j + 1).drop_last() =~= vt.take(j as int));
                assert(vt.take(j + 1).last() == tok@);
            }
            if line_starts_bang(tok) {
                match parse_immediate(tok) {
                    Err(code) => {
                        proof {
                            assert(tokens_imm_error(vt.take(j + 1)) == Some(code));
                            lemma_tokens_imm_error_extends(vt, j + 1, code);
                            lemma_lines_imm_error_at(views(lines@), i as int, code);
                        }
                        return Err(Diagnostic { code, line: copy_bytes(line) });
                    },
                    Ok((bits, value)) => {
                        let ghost base = bang_tokens(views(lines@).take(i as int)) + keep_bang(
                            vt.take(j as int),
                        );
                        proof {
                            assert(keep_bang(vt.take(j + 1)) =~= keep_bang(vt.take(j as int)).push(
                                tok@,
                            ));
                            assert((bang_tokens(views(lines@).take(i as int)) + keep_bang(
                                vt.take(j + 1),
                            )) =~= base.push(tok@));
                            assert(base.push(tok@).drop_last() =~= base);
                        }
                        if !imm_contains(&imms, tok) {
                            imms.push(ImmEntry { token: copy_bytes(tok), bits, value });
                            proof {
                                assert(imm_tokens(imms@) =~= dedup_first(base).push(tok@));
                            }
                        }
                    },
                }
            } else {
                proof {
                    assert(keep_bang(vt.take(j + 1)) =~= keep_bang(vt.take(j as int)));
                    assert((bang_tokens(views(lines@).take(i as int)) + keep_bang(vt.take(j + 1)))
                        =~= (bang_tokens(views(lines@).take(i as int)) + keep_bang(
                        vt.take(j as int),
                    )));
                }
            }
            j = j + 1;
        }
        proof {
            let vl = views(lines@);
            assert(vt.take(vt.len() as int) =~= vt);
            assert(vl.take(i + 1).drop_last() =~= vl.take(i as int));
            assert(vl.take(i + 1).last() == vl[i as int]);
        }
        i = i + 1;
    }
    proof {
        assert(views(lines@).take(lines@.len() as int) =~= views(lines@));
    }
    Ok(imms)
}

/// A token error at position `j` decides the whole line's scan.
proof fn lemma_tokens_imm_error_extends(ts: Seq<Seq<u8>>, j: int, code: ErrorCode)
    requires
        0 <= j <= ts.len(),
        tokens_imm_error(ts.take(j)) == Some(code),
    ensures
        tokens_imm_error(ts) == Some(code),
    decreases ts.len() - j,
{
    if j < ts.len() {
        assert(ts.take(j + 1).drop_last() =~= ts.take(j));
        lemma_tokens_imm_error_extends(ts, j + 1, code);
    } else {
        assert(ts.take(j) =~= ts);
    }
}

/// A line error at position `i`, with clean lines before it, decides the
/// whole scan.
proof fn lemma_lines_imm_error_at(lines: Seq<Seq<u8>>, i: int, code: ErrorCode)
    requires
        0 <= i < lines.len(),
        lines_imm_error(lines.take(i)) is None,
        tokens_imm_error(split_by(lines[i], B_SPACE)) == Some(code),
    ensures
        lines_imm_error(lines) == Some(ErrSpec { code, line: lines[i] }),
    decreases lines.len() - i,
{
    assert(lines.take(i + 1).drop_last() =~= lines.take(i));
    assert(lines.take(i + 1).last() == lines[i]);
    if i + 1 < lines.len() {
        lemma_lines_imm_error_extends(lines, i + 1, ErrSpec { code, line: lines[i] });
    } else {
        assert(lines.take(i + 1) =~= lines);
    }
}

proof fn lemma_lines_imm_error_extends(lines: Seq<Seq<u8>>, i: int, e: ErrSpec)
    requires
        0 <= i <= lines.len(),
        lines_imm_error(lines.take(i)) == Some(e),
    ensures
        lines_imm_error(lines) == Some(e),
    decreases lines.len() - i,
{
    if i < lines.len() {
        assert(lines.take(i + 1).drop_last() =~= lines.take(i));
        lemma_lines_imm_error_extends(lines, i + 1, e);
    } else {
        assert(lines.take(i) =~= lines);
    }
}

/// An immediate token becomes a reference to its synthetic variable, whose
/// name is the token text itself.
pub open spec fn lower_token(t: Seq<u8>) -> Seq<u8> {
    if starts_bang(t) {
        seq![B_DOLLAR] + t
    } else {
        t
    }
}

pub open spec fn lower_tokens(ts: Seq<Seq<u8>>) -> Seq<Seq<u8>> {
    Seq::new(ts.len(), |i: int| lower_token(ts[i]))
}

/// A line with every immediate token replaced by its synthetic variable.
pub open spec fn lower_line(l: Seq<u8>) -> Seq<u8> {
    join_by(lower_tokens(split_by(l, B_SPACE)), B_SPACE)
}

pub open spec fn lower_lines(lines: Seq<Seq<u8>>) -> Seq<Seq<u8>> {
    Seq::new(lines.len(), |i: int| lower_line(lines[i]))
}

/// The synthetic declaration of an interned immediate:
/// `set<BITS> $<token> <VALUE>`.
pub open spec fn imm_decl_line(token: Seq<u8>) -> Seq<u8> {
    let bits = parse_imm_spec(token)->Ok_0.0;
    let value = parse_imm_spec(token)->Ok_0.1;
    seq![115u8, 101u8, 116u8] + dec_digits(bits as nat) + seq![B_SPACE, B_DOLLAR] + token + seq![
        B_SPACE,
    ] + dec_digits(value as nat)
}

pub open spec fn decls_of(imms: Seq<Seq<u8>>) -> Seq<Seq<u8>> {
    Seq::new(imms.len(), |i: int| imm_decl_line(imms[i]))
}

/// Pass 3: prepend one synthetic declaration per interned immediate, in
/// first-occurrence order, and replace every immediate token with a
/// reference to its synthetic variable.
pub fn lower_immediates(lines: &Vec<Vec<u8>>, imms: &Vec<ImmEntry>) -> (r: Vec<Vec<u8>>)
    requires
        forall|k: int|
            0 <= k < imms@.len() ==> parse_imm_spec(#[trigger] imms@[k].token@) == Ok::<
                (u64, u64),
                ErrorCode,
            >((imms@[k].bits, imms@[k].value)),
    ensures
        views(r@) == decls_of(imm_tokens(imms@)) + lower_lines(views(lines@)),
{
    let mut r: Vec<Vec<u8>> = Vec::new();
    let mut i: usize = 0;
    while i < imms.len()
        invariant
            0 <= i <= imms@.len(),
            views(r@) =~= decls_of(imm_tokens(imms@)).take(i as int),
            forall|k: int|
                0 <= k < imms@.len() ==> parse_imm_spec(#[trigger] imms@[k].token@) == Ok::<
                    (u64, u64),
                    ErrorCode,
                >((imms@[k].bits, imms@[k].value)),
        decreases imms@.len() - i,
    {
        let e = &imms[i];
        let mut dl: Vec<u8> = Vec::new();
        dl.push(115);
        dl.push(101);
        dl.push(116);
        let mut bits_txt = u64_to_dec(e.bits);
        dl.append(&mut bits_txt);
        dl.push(B_SPACE);
        dl.push(B_DOLLAR);
        let mut tok = copy_bytes(&e.token);
        dl.append(&mut tok);
        dl.push(B_SPACE);
        let mut val_txt = u64_to_dec(e.value);
        dl.append(&mut val_txt);
        proof {
            assert(dl@ =~= imm_decl_line(imms@[i as int].token@));
        }
        r.push(dl);
        proof {
            assert(views(r@) =~= decls_of(imm_tokens(imms@)).take(i + 1));
        }
        i = i + 1;
    }
    let mut li: usize = 0;
    while li < lines.len()
        invariant
            0 <= li <= lines@.len(),
            views(r@) =~= decls_of(imm_tokens(imms@)) + lower_lines(views(lines@)).take(li as int),
        decreases lines@.len() - li,
    {
        let toks = split_bytes_by(&lines[li], B_SPACE);
        let ghost vt = split_by(lines@[li as int]@, B_SPACE);
        let mut nts: Vec<Vec<u8>> = Vec::new();
        let mut j: usize = 0;
        while j < toks.len()
            invariant
                0 <= j <= toks@.len(),
                views(toks@) == vt,
                views(nts@) =~= lower_tokens(vt).take(j as int),
            decreases toks@.len() - j,
        {
            let tok = &toks[j];
            if line_starts_bang(tok) {
                let mut nt: Vec<u8> = Vec::new();
                nt.push(B_DOLLAR);
                let mut c = copy_bytes(tok);
                nt.append(&mut c);
                proof {
                    assert(nt@ =~= lower_token(vt[j as int]));
                }
                nts.push(nt);
            } else {
                nts.push(copy_bytes(tok));
            }
            proof {
                assert(views(nts@) =~= lower_tokens(vt).take(j + 1));
            }
            j = j + 1;
        }
        proof {
            assert(lower_tokens(vt).take(vt.len() as int) =~= lower_tokens(vt));
        }
        let nl = join_bytes_by(&nts, B_SPACE);
        proof {
            assert(views(nts@) == lower_tokens(vt));
            assert(nl@ == lower_line(views(lines@)[li as int]));
            assert(lower_lines(views(lines@))[li as int] == lower_line(views(lines@)[li as int]));
        }
        let ghost prevv = views(r@);
        let ghost nlv = nl@;
        r.push(nl);
        proof {
            assert(views(r@) =~= prevv.push(nlv));
            assert(decls_of(imm_tokens(imms@)) + lower_lines(views(lines@)).take(li + 1) =~= prevv
                .push(nlv));
        }
        li = li + 1;
    }
    proof {
        assert(lower_lines(views(lines@)).take(lines@.len() as int) =~= lower_lines(views(lines@)));
        assert(views(r@) =~= decls_of(imm_tokens(imms@)) + lower_lines(views(lines@)));
    }
    r
}

/// Pass 4: the number of lines the text section will hold.
pub open spec fn count_instr_lines(lines: Seq<Seq<u8>>) -> int
    decreases lines.len(),
{
    if lines.len() == 0 {
        0
    } else {
        count_instr_lines(lines.drop_last()) + if is_instruction_line(lines.last()) {
            1int
        } else {
            0int
        }
    }
}

pub proof fn lemma_count_instr_lines_bound(lines: Seq<Seq<u8>>)
    ensures
        0 <= count_instr_lines(lines) <= lines.len(),
    decreases lines.len(),
{
    if lines.len() > 0 {
        lemma_count_instr_lines_bound(lines.drop_last());
    }
}

/// Pass 4: count the lines that are neither empty, nor tags, nor comments,
/// nor declarations; the text section holds 8 bytes for each.
pub fn count_text_instructions(lines: &Vec<Vec<u8>>) -> (r: usize)
    ensures
        r == count_instr_lines(views(lines@)),
{
    let mut count: usize = 0;
    let mut i: usize = 0;
    proof {
        lemma_count_instr_lines_bound(views(lines@));
    }
    while i < lines.len()
        invariant
            0 <= i <= lines@.len(),
            count == count_instr_lines(views(lines@).take(i as int)),
            count <= i,
        decreases lines@.len() - i,
    {
        let ghost vl = views(lines@);
        proof {
            assert(vl.take(i + 1).drop_last() =~= vl.take(i as int));
            assert(vl.take(i + 1).last() == vl[i as int]);
            lemma_count_instr_lines_bound(vl.take(i + 1));
        }
        if line_is_instruction(&lines[i]) {
            count = count + 1;
        }
        i = i + 1;
    }
    proof {
        assert(views(lines@).take(lines@.len() as int) =~= views(lines@));
    }
    count
}

/// The bytes the declared variables occupy together.
pub open spec fn width_sum(entries: Seq<VarSpec>) -> int
    decreases entries.len(),
{
    if entries.len() == 0 {
        0
    } else {
        width_sum(entries.drop_last()) + entries.last().width
    }
}

/// Whether a name is already bound in the memory map.
pub open spec fn has_name(entries: Seq<VarSpec>, name: Seq<u8>) -> bool {
    exists|k: int| 0 <= k < entries.len() && entries[k].name == name
}

/// The address bound to a name in the memory map, if any.
pub open spec fn var_lookup(entries: Seq<VarSpec>, name: Seq<u8>) -> Option<int>
    decreases entries.len(),
{
    if entries.len() == 0 {
        None
    } else if entries[0].name == name {
        Some(entries[0].address)
    } else {
        var_lookup(entries.skip(1), name)
    }
}

/// A bit width the source grammar accepts.
pub open spec fn valid_bits(bits: u64) -> bool {
    bits == 8 || bits == 16 || bits == 32 || bits == 64
}

/// Pass 5: walk the lines in order; each `set<BITS> $<name> <value>` line
/// binds its name to the next free data-section address. Token count,
/// leading `$`, freshness of the name, the size suffix and the value are
/// validated in that order; the first failure is the diagnostic.
pub open spec fn layout_spec(lines: Seq<Seq<u8>>, text_size: int) -> Result<Seq<VarSpec>, ErrSpec>
    decreases lines.len(),
{
    if lines.len() == 0 {
        Ok(Seq::empty())
    } else {
        match layout_spec(lines.drop_last(), text_size) {
            Err(e) => Err(e),
            Ok(entries) => {
                let l = lines.last();
                if !is_set_decl(l) {
                    Ok(entries)
                } else {
                    let ts = split_by(l, B_SPACE);
                    if ts.len() != 3 {
                        Err(ErrSpec { code: ErrorCode::MalformedSet, line: l })
                    } else if !starts_dollar(ts[1]) {
                        Err(ErrSpec { code: ErrorCode::MissingDollar, line: l })
                    } else if has_name(entries, ts[1].skip(1)) {
                        Err(ErrSpec { code: ErrorCode::DuplicateVariable, line: l })
                    } else {
                        match parse_dec_spec(ts[0].skip(3)) {
                            None => Err(ErrSpec { code: ErrorCode::BadSize, line: l }),
                            Some(bits) => if !valid_bits(bits) {
                                Err(ErrSpec { code: ErrorCode::BadSize, line: l })
                            } else {
                                match parse_dec_spec(ts[2]) {
                                    None => Err(ErrSpec { code: ErrorCode::BadValue, line: l }),
                                    Some(value) => Ok(
                                        entries.push(
                                            VarSpec {
                                                name: ts[1].skip(1),
                                                address: text_size + width_sum(entries),
                                                value,
                                                width: bits as int / 8,
                                            },
                                        ),
                                    ),
                                }
                            },
                        }
                    }
                }
            },
        }
    }
}

/// Every width a successful layout records is 1, 2, 4 or 8 bytes, so the
/// variables together occupy at most 8 bytes per source line.
pub proof fn lemma_layout_widths(lines: Seq<Seq<u8>>, text_size: int)
    requires
        layout_spec(lines, text_size) is Ok,
    ensures
        ({
            let entries = layout_spec(lines, text_size)->Ok_0;
            &&& forall|k: int|
                0 <= k < entries.len() ==> (#[trigger] entries[k].width == 1 || entries[k].width
                    == 2 || entries[k].width == 4 || entries[k].width == 8)
            &&& 0 <= width_sum(entries) <= 8 * lines.len()
        }),
    decreases lines.len(),
{
    if lines.len() > 0 {
        match layout_spec(lines.drop_last(), text_size) {
            Err(_) => {},
            Ok(prev) => {
                lemma_layout_widths(lines.drop_last(), text_size);
                let entries = layout_spec(lines, text_size)->Ok_0;
                if entries != prev {
                    assert(entries.drop_last() =~= prev);
                    assert(width_sum(entries) == width_sum(prev) + entries.last().width);
                }
            },
        }
    }
}

/// An error raised at line `i`, with clean lines before it, decides the
/// whole layout pass.
proof fn lemma_layout_err_extends(lines: Seq<Seq<u8>>, i: int, text_size: int, e: ErrSpec)
    requires
        0 <= i <= lines.len(),
        layout_spec(lines.take(i), text_size) == Err::<Seq<VarSpec>, ErrSpec>(e),
    ensures
        layout_spec(lines, text_size) == Err::<Seq<VarSpec>, ErrSpec>(e),
    decreases lines.len() - i,
{
    if i < lines.len() {
        assert(lines.take(i + 1).drop_last() =~= lines.take(i));
        lemma_layout_err_extends(lines, i + 1, text_size, e);
    } else {
        assert(lines.take(i) =~= lines);
    }
}

fn var_has_name(entries: &Vec<VarEntry>, name: &Vec<u8>) -> (r: bool)
    ensures
        r == has_name(var_views(entries@), name@),
{
    let mut i: usize = 0;
    while i < entries.len()
        invariant
            0 <= i <= entries@.len(),
            forall|k: int| 0 <= k < i ==> var_views(entries@)[k].name != name@,
        decreases entries@.len() - i,
    {
        if bytes_eq(&entries[i].name, name) {
            proof {
                assert(var_views(entries@)[i as int].name == name@);
            }
            return true;
        }
        i = i + 1;
    }
    false
}

/// Pass 5: build the memory map. Addresses begin at `text_size` and grow by
/// each entry's width, in declaration order.
pub fn layout_variables(lines: &Vec<Vec<u8>>, text_size: usize) -> (r: Result<
    Vec<VarEntry>,
    Diagnostic,
>)
    requires
        text_size + 8 * lines@.len() <= usize::MAX,
    ensures
        match layout_spec(views(lines@), text_size as int) {
            Ok(entries) => r is Ok && var_views(r->Ok_0@) == entries,
            Err(e) => r is Err && r->Err_0@ == e,
        },
{
    let mut entries: Vec<VarEntry> = Vec::new();
    let mut offset: usize = 0;
    let mut i: usize = 0;
    while i < lines.len()
        invariant
            0 <= i <= lines@.len(),
            text_size + 8 * lines@.len() <= usize::MAX,
            layout_spec(views(lines@).take(i as int), text_size as int) is Ok,
            var_views(entries@) == layout_spec(views(lines@).take(i as int), text_size as int)
                ->Ok_0,
            offset == width_sum(var_views(entries@)),
            offset <= 8 * i,
        decreases lines@.len() - i,
    {
        let ghost vl = views(lines@);
        proof {
            assert(vl.take(i + 1).drop_last() =~= vl.take(i as int));
            assert(vl.take(i + 1).last() == vl[i as int]);
        }
        let line = &lines[i];
        if line_is_set_decl(line) {
            let toks = split_bytes_by(line, B_SPACE);
            let ghost vt = split_by(vl[i as int], B_SPACE);
            proof {
                assert(views(toks@) == vt);
                lemma_find_byte_spec(line@, B_SPACE);
                match find_byte(line@, B_SPACE) {
                    Some(fi) => {
                        assert(fi >= 3);
                        assert(vt[0] == line@.take(fi));
                    },
                    None => {
                        assert(vt[0] == line@);
                    },
                }
                assert(vt[0].len() >= 3);
            }
            if toks.len() != 3 {
                let e = Diagnostic { code: ErrorCode::MalformedSet, line: copy_bytes(line) };
                proof {
                    lemma_layout_err_extends(vl, i + 1, text_size as int, e@);
                }
                return Err(e);
            }
            if !line_starts_dollar(&toks[1]) {
                let e = Diagnostic { code: ErrorCode::MissingDollar, line: copy_bytes(line) };
                proof {
                    lemma_layout_err_extends(vl, i + 1, text_size as int, e@);
                }
                return Err(e);
            }
            let name = subvec(&toks[1], 1, toks[1].len());
            proof {
                assert(name@ =~= vt[1].skip(1));
            }
            if var_has_name(&entries, &name) {
                let e = Diagnostic { code: ErrorCode::DuplicateVariable, line: copy_bytes(line) };
                proof {
                    lemma_layout_err_extends(vl, i + 1, text_size as int, e@);
                }
                return Err(e);
            }
            let bits_txt = subvec(&toks[0], 3, toks[0].len());
            proof {
                assert(bits_txt@ =~= vt[0].skip(3));
            }
            let bits = match parse_dec(&bits_txt) {
                None => {
                    let e = Diagnostic { code: ErrorCode::BadSize, line: copy_bytes(line) };
                    proof {
                        lemma_layout_err_extends(vl, i + 1, text_size as int, e@);
                    }
                    return Err(e);
                },
                Some(bits) => bits,
            };
            if !(bits == 8 || bits == 16 || bits == 32 || bits == 64) {
                let e = Diagnostic { code: ErrorCode::BadSize, line: copy_bytes(line) };
                proof {
                    lemma_layout_err_extends(vl, i + 1, text_size as int, e@);
                }
                return Err(e);
            }
            let value = match parse_dec(&toks[2]) {
                None => {
                    let e = Diagnostic { code: ErrorCode::BadValue, line: copy_bytes(line) };
                    proof {
                        lemma_layout_err_extends(vl, i + 1, text_size as int, e@);
                    }
                    return Err(e);
                },
                Some(value) => value,
            };
            let width = (bits / 8) as usize;
            let ghost prev = var_views(entries@);
            entries.push(VarEntry { name, address: text_size + offset, value, width });
            proof {
                assert(var_views(entries@) =~= prev.push(
                    VarSpec {
                        name: vt[1].skip(1),
                        address: text_size as int + width_sum(prev),
                        value,
                        width: bits as int / 8,
                    },
                ));
                assert(var_views(entries@).drop_last() =~= prev);
            }
            offset = offset + width;
        }
        i = i + 1;
    }
    proof {
        assert(views(lines@).take(lines@.len() as int) =~= views(lines@));
    }
    Ok(entries)
}

/// Variable addresses start at the end of the text section, follow
/// declaration order, and grow by exactly the preceding entry's width:
/// addresses are strictly increasing and at least `text_size`.
pub proof fn lemma_layout_addresses(lines: Seq<Seq<u8>>, text_size: int)
    requires
        layout_spec(lines, text_size) is Ok,
        text_size >= 0,
    ensures
        ({
            let entries = layout_spec(lines, text_size)->Ok_0;
            &&& forall|k: int|
                0 <= k < entries.len() ==> #[trigger] entries[k].address == text_size + width_sum(
                    entries.take(k),
                )
            &&& forall|k: int| 0 <= k < entries.len() ==> #[trigger] entries[k].address >= text_size
            &&& forall|j: int, k: int|
                0 <= j < k < entries.len() ==> #[trigger] entries[j].address + entries[j].width
                    <= #[trigger] entries[k].address
        }),
    decreases lines.len(),
{
    let entries = layout_spec(lines, text_size)->Ok_0;
    if lines.len() == 0 {
    } else {
        match layout_spec(lines.drop_last(), text_size) {
            Err(_) => {},
            Ok(prev) => {
                lemma_layout_addresses(lines.drop_last(), text_size);
                lemma_layout_widths(lines.drop_last(), text_size);
                if entries == prev {
                } else {
                    assert(entries.drop_last() =~= prev);
                    assert forall|k: int| 0 <= k < entries.len() implies #[trigger] entries[k].address
                        == text_size + width_sum(entries.take(k)) by {
                        if k < prev.len() {
                            assert(entries[k] == prev[k]);
                            assert(entries.take(k) =~= prev.take(k));
                        } else {
                            assert(entries.take(k) =~= prev);
                        }
                    }
                    assert forall|j: int, k: int| 0 <= j < k < entries.len() implies
                        #[trigger] entries[j].address + entries[j].width
                        <= #[trigger] entries[k].address by {
                        if k < prev.len() {
                        } else {
                            assert(entries[k].address == text_size + width_sum(prev));
                            lemma_width_sum_partial(prev, j);
                        }
                    }
                }
            },
        }
    }
}

/// The widths up to an index, plus that entry's own width, never exceed the
/// total.
proof fn lemma_width_sum_partial(entries: Seq<VarSpec>, j: int)
    requires
        0 <= j < entries.len(),
        forall|k: int|
            0 <= k < entries.len() ==> (#[trigger] entries[k].width == 1 || entries[k].width == 2
                || entries[k].width == 4 || entries[k].width == 8),
        forall|k: int|
            0 <= k < entries.len() ==> #[trigger] entries[k].address == entries[0].address
                - width_sum(entries.take(0)) + width_sum(entries.take(k)),
    ensures
        entries[j].address + entries[j].width <= entries[0].address + width_sum(entries),
    decreases entries.len(),
{
    lemma_width_sum_prefix(entries, j + 1);
    assert(entries.take(j + 1).drop_last() =~= entries.take(j));
    assert(entries.take(j + 1).last() == entries[j]);
    assert(entries.take(0) =~= Seq::<VarSpec>::empty());
}

/// Pass 6: retain only non-empty, non-declaration lines.
pub open spec fn drop_decls_spec(lines: Seq<Seq<u8>>) -> Seq<Seq<u8>>
    decreases lines.len(),
{
    if lines.len() == 0 {
        Seq::empty()
    } else {
        drop_decls_spec(lines.drop_last()) + if lines.last().len() > 0 && !is_set_decl(
            lines.last(),
        ) {
            seq![lines.last()]
        } else {
            Seq::empty()
        }
    }
}

/// Pass 6: drop declarations and blank lines.
pub fn drop_declarations(lines: &Vec<Vec<u8>>) -> (r: Vec<Vec<u8>>)
    ensures
        views(r@) == drop_decls_spec(views(lines@)),
{
    let mut r: Vec<Vec<u8>> = Vec::new();
    let mut i: usize = 0;
    while i < lines.len()
        invariant
            0 <= i <= lines@.len(),
            views(r@) == drop_decls_spec(views(lines@).take(i as int)),
        decreases lines@.len() - i,
    {
        let ghost vl = views(lines@);
        let ghost pre = views(r@);
        proof {
            assert(vl.take(i + 1).drop_last() =~= vl.take(i as int));
            assert(vl.take(i + 1).last() == vl[i as int]);
        }
        let line = &lines[i];
        if line.len() > 0 && !line_is_set_decl(line) {
            r.push(copy_bytes(line));
            proof {
                assert(views(r@) =~= pre.push(vl[i as int]));
                assert(views(r@) =~= drop_decls_spec(vl.take(i + 1)));
            }
        } else {
            proof {
                assert(views(r@) =~= drop_decls_spec(vl.take(i + 1)));
            }
        }
        i = i + 1;
    }
    proof {
        assert(views(lines@).take(lines@.len() as int) =~= views(lines@));
    }
    r
}

/// The number of non-tag lines: the instructions of the text section once
/// declarations, blanks and comments are gone.
pub open spec fn count_nontag(lines: Seq<Seq<u8>>) -> int
    decreases lines.len(),
{
    if lines.len() == 0 {
        0
    } else {
        count_nontag(lines.drop_last()) + if !starts_hash(lines.last()) {
            1int
        } else {
            0int
        }
    }
}

pub proof fn lemma_count_nontag_bound(lines: Seq<Seq<u8>>)
    ensures
        0 <= count_nontag(lines) <= lines.len(),
    decreases lines.len(),
{
    if lines.len() > 0 {
        lemma_count_nontag_bound(lines.drop_last());
    }
}

/// Pass 7: each tag line binds its name (after the `#`) to eight times the
/// number of instruction lines before it — the byte offset, in the text
/// section, of the instruction that textually follows the tag. A name bound
/// twice keeps its later binding.
pub open spec fn tag_bindings(lines: Seq<Seq<u8>>) -> Seq<TagSpec>
    decreases lines.len(),
{
    if lines.len() == 0 {
        Seq::empty()
    } else {
        tag_bindings(lines.drop_last()) + if starts_hash(lines.last()) {
            seq![
                TagSpec {
                    name: lines.last().skip(1),
                    address: 8 * count_nontag(lines.drop_last()),
                },
            ]
        } else {
            Seq::empty()
        }
    }
}

/// The lines that remain once tags are stripped.
pub open spec fn tagless_lines(lines: Seq<Seq<u8>>) -> Seq<Seq<u8>>
    decreases lines.len(),
{
    if lines.len() == 0 {
        Seq::empty()
    } else {
        tagless_lines(lines.drop_last()) + if !starts_hash(lines.last()) {
            seq![lines.last()]
        } else {
            Seq::empty()
        }
    }
}

/// The address a tag name resolves to: its last binding in source order.
pub open spec fn tag_lookup(bindings: Seq<TagSpec>, name: Seq<u8>) -> Option<int>
    decreases bindings.len(),
{
    if bindings.len() == 0 {
        None
    } else if bindings.last().name == name {
        Some(bindings.last().address)
    } else {
        tag_lookup(bindings.drop_last(), name)
    }
}

/// Pass 7: resolve tags. Returns the lines with tag lines removed, and the
/// jump map.
pub fn resolve_tags(lines: &Vec<Vec<u8>>) -> (r: (Vec<Vec<u8>>, Vec<TagEntry>))
    requires
        8 * lines@.len() <= usize::MAX,
    ensures
        views(r.0@) == tagless_lines(views(lines@)),
        tag_views(r.1@) == tag_bindings(views(lines@)),
{
    let mut kept: Vec<Vec<u8>> = Vec::new();
    let mut tags: Vec<TagEntry> = Vec::new();
    let mut i: usize = 0;
    while i < lines.len()
        invariant
            0 <= i <= lines@.len(),
            8 * lines@.len() <= usize::MAX,
            views(kept@) == tagless_lines(views(lines@).take(i as int)),
            tag_views(tags@) == tag_bindings(views(lines@).take(i as int)),
            kept@.len() == count_nontag(views(lines@).take(i as int)),
        decreases lines@.len() - i,
    {
        let ghost vl = views(lines@);
        let ghost prek = views(kept@);
        let ghost pret = tag_views(tags@);
        proof {
            assert(vl.take(i + 1).drop_last() =~= vl.take(i as int));
            assert(vl.take(i + 1).last() == vl[i as int]);
            lemma_count_nontag_bound(vl.take(i as int));
        }
        let line = &lines[i];
        if line_starts_hash(line) {
            let name = subvec(line, 1, line.len());
            proof {
                assert(name@ =~= vl[i as int].skip(1));
            }
            tags.push(TagEntry { name, address: 8 * kept.len() });
            proof {
                assert(tag_views(tags@) =~= pret.push(
                    TagSpec {
                        name: vl[i as int].skip(1),
                        address: 8 * count_nontag(vl.take(i as int)),
                    },
                ));
                assert(tag_views(tags@) =~= tag_bindings(vl.take(i + 1)));
                assert(views(kept@) =~= tagless_lines(vl.take(i + 1)));
            }
        } else {
            kept.push(copy_bytes(line));
            proof {
                assert(views(kept@) =~= prek.push(vl[i as int]));
                assert(views(kept@) =~= tagless_lines(vl.take(i + 1)));
                assert(tag_views(tags@) =~= tag_bindings(vl.take(i + 1)));
            }
        }
        i = i + 1;
    }
    proof {
        assert(views(lines@).take(lines@.len() as int) =~= views(lines@));
    }
    (kept, tags)
}

/// Tag addresses are multiples of 8 and lie within the text section: no
/// binding exceeds eight times the instruction count (a tag that no
/// instruction follows is bound to the very end of the text section).
pub proof fn lemma_tag_addresses(lines: Seq<Seq<u8>>)
    ensures
        forall|k: int|
            0 <= k < tag_bindings(lines).len() ==> (#[trigger] tag_bindings(lines)[k].address % 8
                == 0 && 0 <= tag_bindings(lines)[k].address <= 8 * count_nontag(lines)),
    decreases lines.len(),
{
    if lines.len() > 0 {
        lemma_tag_addresses(lines.drop_last());
        lemma_count_nontag_bound(lines.drop_last());
        let b = tag_bindings(lines);
        let p = tag_bindings(lines.drop_last());
        assert forall|k: int| 0 <= k < b.len() implies (#[trigger] b[k].address % 8 == 0 && 0
            <= b[k].address <= 8 * count_nontag(lines)) by {
            if k < p.len() {
                assert(b[k] == p[k]);
            }
        }
    }
}

pub open spec fn is_ascii_alpha(b: u8) -> bool {
    (65 <= b <= 90) || (97 <= b <= 122)
}

/// The alphabetic characters of a token: the mnemonic of `add64` is `add`.
pub open spec fn filter_alpha(s: Seq<u8>) -> Seq<u8>
    decreases s.len(),
{
    if s.len() == 0 {
        Seq::empty()
    } else {
        filter_alpha(s.drop_last()) + if is_ascii_alpha(s.last()) {
            seq![s.last()]
        } else {
            Seq::empty()
        }
    }
}

/// The decimal characters of a token: the size suffix of `add64` is `64`.
pub open spec fn filter_digit(s: Seq<u8>) -> Seq<u8>
    decreases s.len(),
{
    if s.len() == 0 {
        Seq::empty()
    } else {
        filter_digit(s.drop_last()) + if crate::bytes::is_dec_digit(s.last()) {
            seq![s.last()]
        } else {
            Seq::empty()
        }
    }
}

fn filter_alpha_exec(s: &Vec<u8>) -> (r: Vec<u8>)
    ensures
        r@ == filter_alpha(s@),
{
    let mut r: Vec<u8> = Vec::new();
    let mut i: usize = 0;
    while i < s.len()
        invariant
            0 <= i <= s@.len(),
            r@ == filter_alpha(s@.take(i as int)),
        decreases s@.len() - i,
    {
        let ghost pre = r@;
        proof {
            assert(s@.take(i + 1).drop_last() =~= s@.take(i as int));
            assert(s@.take(i + 1).last() == s@[i as int]);
        }
        let b = s[i];
        if (65 <= b && b <= 90) || (97 <= b && b <= 122) {
            r.push(b);
            proof {
                assert(r@ =~= filter_alpha(s@.take(i + 1)));
            }
        } else {
            proof {
                assert(r@ =~= filter_alpha(s@.take(i + 1)));
            }
        }
        i = i + 1;
    }
    proof {
        assert(s@.take(s@.len() as int) =~= s@);
    }
    r
}

fn filter_digit_exec(s: &Vec<u8>) -> (r: Vec<u8>)
    ensures
        r@ == filter_digit(s@),
{
    let mut r: Vec<u8> = Vec::new();
    let mut i: usize = 0;
    while i < s.len()
        invariant
            0 <= i <= s@.len(),
            r@ == filter_digit(s@.take(i as int)),
        decreases s@.len() - i,
    {
        proof {
            assert(s@.take(i + 1).drop_last() =~= s@.take(i as int));
            assert(s@.take(i + 1).last() == s@[i as int]);
        }
        let b = s[i];
        if 48 <= b && b <= 57 {
            r.push(b);
            proof {
                assert(r@ =~= filter_digit(s@.take(i + 1)));
            }
        } else {
            proof {
                assert(r@ =~= filter_digit(s@.take(i + 1)));
            }
        }
        i = i + 1;
    }
    proof {
        assert(s@.take(s@.len() as int) =~= s@);
    }
    r
}

/// Parsing a decimal into the machine's word size.
pub open spec fn parse_usize_spec(s: Seq<u8>) -> Option<usize> {
    match parse_dec_spec(s) {
        None => None,
        Some(v) => if v <= usize::MAX {
            Some(v as usize)
        } else {
            None
        },
    }
}

fn parse_usize(s: &Vec<u8>) -> (r: Option<usize>)
    ensures
        r == parse_usize_spec(s@),
{
    match parse_dec(s) {
        None => None,
        Some(v) => {
            if v <= (usize::MAX as u64) {
                Some(v as usize)
            } else {
                None
            }
        },
    }
}

fn tag_lookup_exec(tags: &Vec<TagEntry>, name: &Vec<u8>) -> (r: Option<usize>)
    ensures
        match r {
            Some(a) => tag_lookup(tag_views(tags@), name@) == Some(a as int),
            None => tag_lookup(tag_views(tags@), name@) is None,
        },
{
    let mut i: usize = tags.len();
    proof {
        assert(tag_views(tags@).take(tags@.len() as int) =~= tag_views(tags@));
    }
    while i > 0
        invariant
            0 <= i <= tags@.len(),
            tag_lookup(tag_views(tags@).take(i as int), name@) == tag_lookup(
                tag_views(tags@),
                name@,
            ),
        decreases i,
    {
        proof {
            assert(tag_views(tags@).take(i as int).drop_last() =~= tag_views(tags@).take(i - 1));
            assert(tag_views(tags@).take(i as int).last() == tag_views(tags@)[i - 1]);
        }
        if bytes_eq(&tags[i - 1].name, name) {
            return Some(tags[i - 1].address);
        }
        i = i - 1;
    }
    proof {
        assert(tag_views(tags@).take(0) =~= Seq::<TagSpec>::empty());
    }
    None
}

fn var_lookup_exec(vars: &Vec<VarEntry>, name: &Vec<u8>) -> (r: Option<usize>)
    ensures
        match r {
            Some(a) => var_lookup(var_views(vars@), name@) == Some(a as int),
            None => var_lookup(var_views(vars@), name@) is None,
        },
{
    let mut i: usize = 0;
    proof {
        assert(var_views(vars@).skip(0) =~= var_views(vars@));
    }
    while i < vars.len()
        invariant
            0 <= i <= vars@.len(),
            var_lookup(var_views(vars@), name@) == var_lookup(
                var_views(vars@).skip(i as int),
                name@,
            ),
        decreases vars@.len() - i,
    {
        proof {
            assert(var_views(vars@).skip(i as int)[0] == var_views(vars@)[i as int]);
            assert(var_views(vars@).skip(i as int).skip(1) =~= var_views(vars@).skip(i + 1));
        }
        if bytes_eq(&vars[i].name, name) {
            return Some(vars[i].address);
        }
        i = i + 1;
    }
    proof {
        assert(var_views(vars@).skip(vars@.len() as int) =~= Seq::<VarSpec>::empty());
    }
    None
}

/// What one instruction argument resolves to: a `#tag` to its jump-map
/// address, a `$variable` to its memory-map address; anything else is
/// refused.
pub open spec fn resolve_arg_spec(t: Seq<u8>, tags: Seq<TagSpec>, vars: Seq<VarSpec>) -> Result<
    int,
    ErrorCode,
> {
    if starts_hash(t) {
        match tag_lookup(tags, t.skip(1)) {
            None => Err(ErrorCode::UnknownTag),
            Some(a) => Ok(a),
        }
    } else if starts_dollar(t) {
        match var_lookup(vars, t.skip(1)) {
            None => Err(ErrorCode::UnknownVariable),
            Some(a) => Ok(a),
        }
    } else {
        Err(ErrorCode::BadArgument)
    }
}

fn resolve_arg(t: &Vec<u8>, tags: &Vec<TagEntry>, vars: &Vec<VarEntry>) -> (r: Result<
    usize,
    ErrorCode,
>)
    ensures
        match r {
            Ok(a) => resolve_arg_spec(t@, tag_views(tags@), var_views(vars@)) == Ok::<
                int,
                ErrorCode,
            >(a as int),
            Err(c) => resolve_arg_spec(t@, tag_views(tags@), var_views(vars@)) == Err::<
                int,
                ErrorCode,
            >(c),
        },
{
    if line_starts_hash(t) {
        let name = subvec(t, 1, t.len());
        proof {
            assert(name@ =~= t@.skip(1));
        }
        match tag_lookup_exec(tags, &name) {
            None => Err(ErrorCode::UnknownTag),
            Some(a) => Ok(a),
        }
    } else if line_starts_dollar(t) {
        let name = subvec(t, 1, t.len());
        proof {
            assert(name@ =~= t@.skip(1));
        }
        match var_lookup_exec(vars, &name) {
            None => Err(ErrorCode::UnknownVariable),
            Some(a) => Ok(a),
        }
    } else {
        Err(ErrorCode::BadArgument)
    }
}

/// The arguments of an instruction line, resolved in order; the first
/// failure decides.
pub open spec fn resolve_args_spec(ts: Seq<Seq<u8>>, tags: Seq<TagSpec>, vars: Seq<VarSpec>) -> Result<
    Seq<int>,
    ErrorCode,
>
    decreases ts.len(),
{
    if ts.len() == 0 {
        Ok(Seq::empty())
    } else {
        match resolve_args_spec(ts.drop_last(), tags, vars) {
            Err(c) => Err(c),
            Ok(s) => match resolve_arg_spec(ts.last(), tags, vars) {
                Err(c) => Err(c),
                Ok(a) => Ok(s.push(a)),
            },
        }
    }
}

proof fn lemma_resolve_args_err_extends(
    ts: Seq<Seq<u8>>,
    j: int,
    tags: Seq<TagSpec>,
    vars: Seq<VarSpec>,
    c: ErrorCode,
)
    requires
        0 <= j <= ts.len(),
        resolve_args_spec(ts.take(j), tags, vars) == Err::<Seq<int>, ErrorCode>(c),
    ensures
        resolve_args_spec(ts, tags, vars) == Err::<Seq<int>, ErrorCode>(c),
    decreases ts.len() - j,
{
    if j < ts.len() {
        assert(ts.take(j + 1).drop_last() =~= ts.take(j));
        lemma_resolve_args_err_extends(ts, j + 1, tags, vars, c);
    } else {
        assert(ts.take(j) =~= ts);
    }
}

pub open spec fn usizes_as_ints(s: Seq<usize>) -> Seq<int> {
    Seq::new(s.len(), |i: int| s[i] as int)
}

/// The operation a mnemonic, a size and resolved arguments denote: the
/// mnemonic must be known and take exactly as many arguments as its slots.
pub open spec fn build_op_spec(mn: Seq<u8>, size: usize, args: Seq<int>) -> Result<
    Operation,
    ErrorCode,
> {
    if mn == seq![109u8, 111u8, 118u8] {
        if args.len() != 2 {
            Err(ErrorCode::ArityMismatch)
        } else {
            Ok(Operation::Mov(size, args[0] as usize, args[1] as usize))
        }
    } else if mn == seq![97u8, 100u8, 100u8] {
        if args.len() != 3 {
            Err(ErrorCode::ArityMismatch)
        } else {
            Ok(Operation::Add(size, args[0] as usize, args[1] as usize, args[2] as usize))
        }
    } else if mn == seq![115u8, 117u8, 98u8] {
        if args.len() != 3 {
            Err(ErrorCode::ArityMismatch)
        } else {
            Ok(Operation::Sub(size, args[0] as usize, args[1] as usize, args[2] as usize))
        }
    } else if mn == seq![109u8, 117u8, 108u8] {
        if args.len() != 3 {
            Err(ErrorCode::ArityMismatch)
        } else {
            Ok(Operation::Mul(size, args[0] as usize, args[1] as usize, args[2] as usize))
        }
    } else if mn == seq![100u8, 105u8, 118u8, 116u8] {
        if args.len() != 3 {
            Err(ErrorCode::ArityMismatch)
        } else {
            Ok(Operation::DivT(size, args[0] as usize, args[1] as usize, args[2] as usize))
        }
    } else if mn == seq![100u8, 105u8, 118u8, 114u8] {
        if args.len() != 3 {
            Err(ErrorCode::ArityMismatch)
        } else {
            Ok(Operation::DivR(size, args[0] as usize, args[1] as usize, args[2] as usize))
        }
    } else if mn == seq![114u8, 101u8, 109u8] {
        if args.len() != 3 {
            Err(ErrorCode::ArityMismatch)
        } else {
            Ok(Operation::Rem(size, args[0] as usize, args[1] as usize, args[2] as usize))
        }
    } else if mn == seq![99u8, 103u8, 116u8] {
        if args.len() != 3 {
            Err(ErrorCode::ArityMismatch)
        } else {
            Ok(Operation::Cgt(size, args[0] as usize, args[1] as usize, args[2] as usize))
        }
    } else if mn == seq![99u8, 108u8, 116u8] {
        if args.len() != 3 {
            Err(ErrorCode::ArityMismatch)
        } else {
            Ok(Operation::Clt(size, args[0] as usize, args[1] as usize, args[2] as usize))
        }
    } else if mn == seq![106u8, 109u8, 112u8] {
        if args.len() != 1 {
            Err(ErrorCode::ArityMismatch)
        } else {
            Ok(Operation::Jmp(args[0] as usize))
        }
    } else if mn == seq![106u8, 105u8, 101u8] {
        if args.len() != 2 {
            Err(ErrorCode::ArityMismatch)
        } else {
            Ok(Operation::Jie(size, args[0] as usize, args[1] as usize))
        }
    } else if mn == seq![106u8, 110u8, 101u8] {
        if args.len() != 2 {
            Err(ErrorCode::ArityMismatch)
        } else {
            Ok(Operation::Jne(size, args[0] as usize, args[1] as usize))
        }
    } else if mn == seq![112u8, 117u8, 116u8, 105u8] {
        if args.len() != 1 {
            Err(ErrorCode::ArityMismatch)
        } else {
            Ok(Operation::PutI(size, args[0] as usize))
        }
    } else if mn == seq![112u8, 117u8, 116u8, 99u8] {
        if args.len() != 1 {
            Err(ErrorCode::ArityMismatch)
        } else {
            Ok(Operation::PutC(size, args[0] as usize))
        }
    } else if mn == seq![105u8, 109u8, 122u8] {
        if args.len() != 1 {
            Err(ErrorCode::ArityMismatch)
        } else {
            Ok(Operation::Imz(size, args[0] as usize))
        }
    } else if mn == seq![101u8, 113u8, 117u8] {
        if args.len() != 3 {
            Err(ErrorCode::ArityMismatch)
        } else {
            Ok(Operation::Equ(size, args[0] as usize, args[1] as usize, args[2] as usize))
        }
    } else if mn == seq![104u8, 108u8, 116u8] {
        if args.len() != 0 {
            Err(ErrorCode::ArityMismatch)
        } else {
            Ok(Operation::Hlt())
        }
    } else {
        Err(ErrorCode::UnknownMnemonic)
    }
}

fn eq3(v: &Vec<u8>, a: u8, b: u8, c: u8) -> (r: bool)
    ensures
        r == (v@ == seq![a, b, c]),
{
    if v.len() == 3 && v[0] == a && v[1] == b && v[2] == c {
        proof {
            assert(v@ =~= seq![a, b, c]);
        }
        true
    } else {
        false
    }
}

fn eq4(v: &Vec<u8>, a: u8, b: u8, c: u8, d: u8) -> (r: bool)
    ensures
        r == (v@ == seq![a, b, c, d]),
{
    if v.len() == 4 && v[0] == a && v[1] == b && v[2] == c && v[3] == d {
        proof {
            assert(v@ =~= seq![a, b, c, d]);
        }
        true
    } else {
        false
    }
}

fn build_operation(mn: &Vec<u8>, size: usize, args: &Vec<usize>) -> (r: Result<
    Operation,
    ErrorCode,
>)
    ensures
        r == build_op_spec(mn@, size, usizes_as_ints(args@)),
{
    let arity = args.len();
    if eq3(mn, 109, 111, 118) {
        if arity != 2 {
            Err(ErrorCode::ArityMismatch)
        } else {
            Ok(Operation::Mov(size, args[0], args[1]))
        }
    } else if eq3(mn, 97, 100, 100) {
        if arity != 3 {
            Err(ErrorCode::ArityMismatch)
        } else {
            Ok(Operation::Add(size, args[0], args[1], args[2]))
        }
    } else if eq3(mn, 115, 117, 98) {
        if arity != 3 {
            Err(ErrorCode::ArityMismatch)
        } else {
            Ok(Operation::Sub(size, args[0], args[1], args[2]))
        }
    } else if eq3(mn, 109, 117, 108) {
        if arity != 3 {
            Err(ErrorCode::ArityMismatch)
        } else {
            Ok(Operation::Mul(size, args[0], args[1], args[2]))
        }
    } else if eq4(mn, 100, 105, 118, 116) {
        if arity != 3 {
            Err(ErrorCode::ArityMismatch)
        } else {
            Ok(Operation::DivT(size, args[0], args[1], args[2]))
        }
    } else if eq4(mn, 100, 105, 118, 114) {
        if arity != 3 {
            Err(ErrorCode::ArityMismatch)
        } else {
            Ok(Operation::DivR(size, args[0], args[1], args[2]))
        }
    } else if eq3(mn, 114, 101, 109) {
        if arity != 3 {
            Err(ErrorCode::ArityMismatch)
        } else {
            Ok(Operation::Rem(size, args[0], args[1], args[2]))
        }
    } else if eq3(mn, 99, 103, 116) {
        if arity != 3 {
            Err(ErrorCode::ArityMismatch)
        } else {
            Ok(Operation::Cgt(size, args[0], args[1], args[2]))
        }
    } else if eq3(mn, 99, 108, 116) {
        if arity != 3 {
            Err(ErrorCode::ArityMismatch)
        } else {
            Ok(Operation::Clt(size, args[0], args[1], args[2]))
        }
    } else if eq3(mn, 106, 109, 112) {
        if arity != 1 {
            Err(ErrorCode::ArityMismatch)
        } else {
            Ok(Operation::Jmp(args[0]))
        }
    } else if eq3(mn, 106, 105, 101) {
        if arity != 2 {
            Err(ErrorCode::ArityMismatch)
        } else {
            Ok(Operation::Jie(size, args[0], args[1]))
        }
    } else if eq3(mn, 106, 110, 101) {
        if arity != 2 {
            Err(ErrorCode::ArityMismatch)
        } else {
            Ok(Operation::Jne(size, args[0], args[1]))
        }
    } else if eq4(mn, 112, 117, 116, 105) {
        if arity != 1 {
            Err(ErrorCode::ArityMismatch)
        } else {
            Ok(Operation::PutI(size, args[0]))
        }
    } else if eq4(mn, 112, 117, 116, 99) {
        if arity != 1 {
            Err(ErrorCode::ArityMismatch)
        } else {
            Ok(Operation::PutC(size, args[0]))
        }
    } else if eq3(mn, 105, 109, 122) {
        if arity != 1 {
            Err(ErrorCode::ArityMismatch)
        } else {
            Ok(Operation::Imz(size, args[0]))
        }
    } else if eq3(mn, 101, 113, 117) {
        if arity != 3 {
            Err(ErrorCode::ArityMismatch)
        } else {
            Ok(Operation::Equ(size, args[0], args[1], args[2]))
        }
    } else if eq3(mn, 104, 108, 116) {
        if arity != 0 {
            Err(ErrorCode::ArityMismatch)
        } else {
            Ok(Operation::Hlt())
        }
    } else {
        Err(ErrorCode::UnknownMnemonic)
    }
}

/// Pass 8, one line: the first token's alphabetic prefix is the mnemonic and
/// its decimal suffix the width in bits (divided by 8 to a width in bytes;
/// `hlt` carries no suffix); the remaining tokens resolve through the jump
/// and memory maps; the mnemonic's arity is enforced.
pub open spec fn parse_line_spec(l: Seq<u8>, tags: Seq<TagSpec>, vars: Seq<VarSpec>) -> Result<
    Operation,
    ErrSpec,
> {
    let ts = split_by(l, B_SPACE);
    let mn = filter_alpha(ts[0]);
    let size_r: Result<usize, ErrorCode> = if mn == seq![104u8, 108u8, 116u8] {
        Ok(0)
    } else {
        match parse_usize_spec(filter_digit(ts[0])) {
            None => Err(ErrorCode::BadSize),
            Some(bits) => Ok((bits / 8) as usize),
        }
    };
    match size_r {
        Err(c) => Err(ErrSpec { code: c, line: l }),
        Ok(size) => match resolve_args_spec(ts.skip(1), tags, vars) {
            Err(c) => Err(ErrSpec { code: c, line: l }),
            Ok(args) => match build_op_spec(mn, size, args) {
                Err(c) => Err(ErrSpec { code: c, line: l }),
                Ok(operation) => Ok(operation),
            },
        },
    }
}

/// Pass 8, one line.
pub fn parse_instruction_line(
    line: &Vec<u8>,
    tags: &Vec<TagEntry>,
    vars: &Vec<VarEntry>,
) -> (r: Result<Operation, Diagnostic>)
    ensures
        match parse_line_spec(line@, tag_views(tags@), var_views(vars@)) {
            Ok(operation) => r is Ok && r->Ok_0 == operation,
            Err(e) => r is Err && r->Err_0@ == e,
        },
{
    let toks = split_bytes_by(line, B_SPACE);
    let ghost vt = split_by(line@, B_SPACE);
    proof {
        crate::text::lemma_split_by_len(line@, B_SPACE);
        assert(views(toks@) == vt);
        assert(toks@[0]@ == vt[0]);
    }
    let mn = filter_alpha_exec(&toks[0]);
    let size: usize = if eq3(&mn, 104, 108, 116) {
        0
    } else {
        let suffix = filter_digit_exec(&toks[0]);
        match parse_usize(&suffix) {
            None => {
                return Err(Diagnostic { code: ErrorCode::BadSize, line: copy_bytes(line) });
            },
            Some(bits) => bits / 8,
        }
    };
    let mut args: Vec<usize> = Vec::new();
    let mut j: usize = 1;
    proof {
        assert(vt.skip(1).take(0) =~= Seq::<Seq<u8>>::empty());
        assert(usizes_as_ints(args@) =~= Seq::<int>::empty());
    }
    while j < toks.len()
        invariant
            1 <= j <= toks@.len(),
            views(toks@) == vt,
            vt == split_by(line@, B_SPACE),
            vt.len() >= 1,
            resolve_args_spec(vt.skip(1).take(j - 1), tag_views(tags@), var_views(vars@)) == Ok::<
                Seq<int>,
                ErrorCode,
            >(usizes_as_ints(args@)),
        decreases toks@.len() - j,
    {
        proof {
            assert(vt.skip(1).take(j as int).drop_last() =~= vt.skip(1).take(j - 1));
            assert(vt.skip(1).take(j as int).last() == vt[j as int]);
        }
        match resolve_arg(&toks[j], tags, vars) {
            Err(c) => {
                proof {
                    lemma_resolve_args_err_extends(
                        vt.skip(1),
                        j as int,
                        tag_views(tags@),
                        var_views(vars@),
                        c,
                    );
                }
                return Err(Diagnostic { code: c, line: copy_bytes(line) });
            },
            Ok(a) => {
                let ghost prea = usizes_as_ints(args@);
                args.push(a);
                proof {
                    assert(usizes_as_ints(args@) =~= prea.push(a as int));
                }
            },
        }
        j = j + 1;
    }
    proof {
        assert(vt.skip(1).take(vt.len() - 1) =~= vt.skip(1));
    }
    match build_operation(&mn, size, &args) {
        Err(c) => Err(Diagnostic { code: c, line: copy_bytes(line) }),
        Ok(operation) => Ok(operation),
    }
}

/// Pass 8: build the instruction list; the first failing line decides.
pub open spec fn build_ops_spec(lines: Seq<Seq<u8>>, tags: Seq<TagSpec>, vars: Seq<VarSpec>) -> Result<
    Seq<Operation>,
    ErrSpec,
>
    decreases lines.len(),
{
    if lines.len() == 0 {
        Ok(Seq::empty())
    } else {
        match build_ops_spec(lines.drop_last(), tags, vars) {
            Err(e) => Err(e),
            Ok(ops) => match parse_line_spec(lines.last(), tags, vars) {
                Err(e) => Err(e),
                Ok(operation) => Ok(ops.push(operation)),
            },
        }
    }
}

proof fn lemma_build_ops_err_extends(
    lines: Seq<Seq<u8>>,
    i: int,
    tags: Seq<TagSpec>,
    vars: Seq<VarSpec>,
    e: ErrSpec,
)
    requires
        0 <= i <= lines.len(),
        build_ops_spec(lines.take(i), tags, vars) == Err::<Seq<Operation>, ErrSpec>(e),
    ensures
        build_ops_spec(lines, tags, vars) == Err::<Seq<Operation>, ErrSpec>(e),
    decreases lines.len() - i,
{
    if i < lines.len() {
        assert(lines.take(i + 1).drop_last() =~= lines.take(i));
        lemma_build_ops_err_extends(lines, i + 1, tags, vars, e);
    } else {
        assert(lines.take(i) =~= lines);
    }
}

/// Pass 8: turn every remaining line into its operation.
pub fn build_operations(
    lines: &Vec<Vec<u8>>,
    tags: &Vec<TagEntry>,
    vars: &Vec<VarEntry>,
) -> (r: Result<Vec<Operation>, Diagnostic>)
    ensures
        match build_ops_spec(views(lines@), tag_views(tags@), var_views(vars@)) {
            Ok(ops) => r is Ok && r->Ok_0@ == ops,
            Err(e) => r is Err && r->Err_0@ == e,
        },
{
    let mut ops: Vec<Operation> = Vec::new();
    let mut i: usize = 0;
    while i < lines.len()
        invariant
            0 <= i <= lines@.len(),
            build_ops_spec(views(lines@).take(i as int), tag_views(tags@), var_views(vars@)) == Ok::<
                Seq<Operation>,
                ErrSpec,
            >(ops@),
        decreases lines@.len() - i,
    {
        let ghost vl = views(lines@);
        proof {
            assert(vl.take(i + 1).drop_last() =~= vl.take(i as int));
            assert(vl.take(i + 1).last() == vl[i as int]);
        }
        match parse_instruction_line(&lines[i], tags, vars) {
            Err(e) => {
                proof {
                    lemma_build_ops_err_extends(
                        vl,
                        i + 1,
                        tag_views(tags@),
                        var_views(vars@),
                        e@,
                    );
                }
                return Err(e);
            },
            Ok(operation) => {
                ops.push(operation);
            },
        }
        i = i + 1;
    }
    proof {
        assert(views(lines@).take(lines@.len() as int) =~= views(lines@));
    }
    Ok(ops)
}

/// The bytes of the source plus one per line: a bound on everything the
/// passes can produce.
pub open spec fn total_len(lines: Seq<Seq<u8>>) -> int
    decreases lines.len(),
{
    if lines.len() == 0 {
        0
    } else {
        total_len(lines.drop_last()) + lines.last().len() + 1
    }
}

proof fn lemma_total_len_bounds(lines: Seq<Seq<u8>>)
    ensures
        lines.len() <= total_len(lines),
        0 <= total_len(lines),
    decreases lines.len(),
{
    if lines.len() > 0 {
        lemma_total_len_bounds(lines.drop_last());
    }
}

proof fn lemma_strip_comments_total_len(lines: Seq<Seq<u8>>)
    ensures
        total_len(strip_comments_spec(lines)) <= total_len(lines),
        strip_comments_spec(lines).len() <= lines.len(),
    decreases lines.len(),
{
    if lines.len() > 0 {
        lemma_strip_comments_total_len(lines.drop_last());
        if !is_comment(lines.last()) {
            let pre = strip_comments_spec(lines.drop_last());
            assert(strip_comments_spec(lines) == pre.push(lines.last()));
            assert(strip_comments_spec(lines).drop_last() =~= pre);
        }
    }
}

proof fn lemma_keep_bang_len(ts: Seq<Seq<u8>>)
    ensures
        keep_bang(ts).len() <= ts.len(),
    decreases ts.len(),
{
    if ts.len() > 0 {
        lemma_keep_bang_len(ts.drop_last());
    }
}

proof fn lemma_bang_tokens_len(lines: Seq<Seq<u8>>)
    ensures
        bang_tokens(lines).len() <= total_len(lines),
    decreases lines.len(),
{
    if lines.len() > 0 {
        lemma_bang_tokens_len(lines.drop_last());
        lemma_keep_bang_len(split_by(lines.last(), B_SPACE));
        crate::text::lemma_split_by_count(lines.last(), B_SPACE);
    }
}

proof fn lemma_dedup_first_len(s: Seq<Seq<u8>>)
    ensures
        dedup_first(s).len() <= s.len(),
    decreases s.len(),
{
    if s.len() > 0 {
        lemma_dedup_first_len(s.drop_last());
    }
}

/// No comment line survives pass 1.
proof fn lemma_strip_no_comments(lines: Seq<Seq<u8>>)
    ensures
        forall|k: int|
            0 <= k < strip_comments_spec(lines).len() ==> !is_comment(
                #[trigger] strip_comments_spec(lines)[k],
            ),
    decreases lines.len(),
{
    if lines.len() > 0 {
        lemma_strip_no_comments(lines.drop_last());
        let whole = strip_comments_spec(lines);
        let pre = strip_comments_spec(lines.drop_last());
        assert forall|k: int| 0 <= k < whole.len() implies !is_comment(#[trigger] whole[k]) by {
            if k < pre.len() {
                assert(whole[k] == pre[k]);
            }
        }
    }
}

/// Lowering never turns a non-comment line into a comment: the first
/// characters of the joined line come from its first token, which lowering
/// leaves alone or prefixes with `$`.
proof fn lemma_lower_line_not_comment(l: Seq<u8>)
    requires
        !is_comment(l),
    ensures
        !is_comment(lower_line(l)),
{
    let ts = split_by(l, B_SPACE);
    crate::text::lemma_split_by_len(l, B_SPACE);
    let lts = lower_tokens(ts);
    crate::text::lemma_join_prefix(lts, B_SPACE);
    let t0 = ts[0];
    assert(lts[0] == lower_token(t0));
    crate::text::lemma_find_byte_spec(l, B_SPACE);
    match crate::text::find_byte(l, B_SPACE) {
        Some(fi) => {
            assert(t0 == l.take(fi));
        },
        None => {
            assert(t0 == l);
        },
    }
    let low = lower_line(l);
    if starts_bang(t0) {
        assert(lower_token(t0)[0] == B_DOLLAR);
        assert(low[0] == B_DOLLAR);
    } else {
        assert(lower_token(t0) == t0);
        if t0.len() >= 2 {
            assert(low[0] == t0[0] && low[1] == t0[1]);
            assert(t0[0] == l[0] && t0[1] == l[1]);
        } else if t0.len() == 1 {
            if lts.len() >= 2 {
                assert(low[1] == B_SPACE);
            } else {
                assert(low == t0);
            }
        } else {
            if lts.len() >= 2 {
                assert(low[0] == B_SPACE);
            } else {
                assert(low == t0);
            }
        }
    }
}

/// Among comment-free lines, the instruction count of pass 4 equals the
/// non-tag count of what pass 6 keeps: the two passes agree on the size of
/// the text section.
proof fn lemma_counts_agree(lines: Seq<Seq<u8>>)
    requires
        forall|k: int| 0 <= k < lines.len() ==> !is_comment(#[trigger] lines[k]),
    ensures
        count_nontag(drop_decls_spec(lines)) == count_instr_lines(lines),
    decreases lines.len(),
{
    if lines.len() > 0 {
        assert(forall|k: int|
            0 <= k < lines.drop_last().len() ==> !is_comment(#[trigger] lines.drop_last()[k]));
        lemma_counts_agree(lines.drop_last());
        let l = lines.last();
        let pre = drop_decls_spec(lines.drop_last());
        if l.len() > 0 && !is_set_decl(l) {
            assert(drop_decls_spec(lines) == pre.push(l));
            assert(drop_decls_spec(lines).drop_last() =~= pre);
        }
    }
}

/// A memory map laid out against a text section of `text_size` bytes: each
/// address is `text_size` plus the widths of the entries before it, and
/// every width is one the ISA knows.
pub open spec fn wf_layout(vars: Seq<VarSpec>, text_size: int) -> bool {
    &&& forall|k: int|
        0 <= k < vars.len() ==> #[trigger] vars[k].address == text_size + width_sum(vars.take(k))
    &&& forall|k: int|
        0 <= k < vars.len() ==> (#[trigger] vars[k].width == 1 || vars[k].width == 2
            || vars[k].width == 4 || vars[k].width == 8)
}

proof fn lemma_build_ops_len(lines: Seq<Seq<u8>>, tags: Seq<TagSpec>, vars: Seq<VarSpec>)
    requires
        build_ops_spec(lines, tags, vars) is Ok,
    ensures
        build_ops_spec(lines, tags, vars)->Ok_0.len() == lines.len(),
    decreases lines.len(),
{
    if lines.len() > 0 {
        match build_ops_spec(lines.drop_last(), tags, vars) {
            Err(_) => {},
            Ok(_) => {
                lemma_build_ops_len(lines.drop_last(), tags, vars);
            },
        }
    }
}

proof fn lemma_tagless_len(lines: Seq<Seq<u8>>)
    ensures
        tagless_lines(lines).len() == count_nontag(lines),
        tagless_lines(lines).len() <= lines.len(),
    decreases lines.len(),
{
    if lines.len() > 0 {
        lemma_tagless_len(lines.drop_last());
    }
}

proof fn lemma_drop_decls_len(lines: Seq<Seq<u8>>)
    ensures
        drop_decls_spec(lines).len() <= lines.len(),
    decreases lines.len(),
{
    if lines.len() > 0 {
        lemma_drop_decls_len(lines.drop_last());
    }
}

/// The lines pass 3 produces are comment-free whenever its input lines are:
/// synthetic declarations begin with `set`, and lowering keeps non-comments
/// non-comments.
proof fn lemma_pass3_no_comments(l1: Seq<Seq<u8>>, imms: Seq<Seq<u8>>)
    requires
        forall|k: int| 0 <= k < l1.len() ==> !is_comment(#[trigger] l1[k]),
    ensures
        forall|k: int|
            0 <= k < (decls_of(imms) + lower_lines(l1)).len() ==> !is_comment(
                #[trigger] (decls_of(imms) + lower_lines(l1))[k],
            ),
{
    let l3 = decls_of(imms) + lower_lines(l1);
    assert forall|k: int| 0 <= k < l3.len() implies !is_comment(#[trigger] l3[k]) by {
        if k < imms.len() {
            assert(l3[k] == imm_decl_line(imms[k]));
            assert(l3[k][0] == 115);
        } else {
            assert(l3[k] == lower_line(l1[k - imms.len()]));
            lemma_lower_line_not_comment(l1[k - imms.len()]);
        }
    }
}

/// The whole front end: strip comments, intern and lower immediates, size
/// the text section, lay out the variables, drop declarations and blanks,
/// resolve tags, and build the instruction list.
pub open spec fn preprocess_spec(lines: Seq<Seq<u8>>) -> Result<
    (Seq<Operation>, Seq<VarSpec>),
    ErrSpec,
> {
    let l1 = strip_comments_spec(lines);
    match lines_imm_error(l1) {
        Some(e) => Err(e),
        None => {
            let imms = dedup_first(bang_tokens(l1));
            let l3 = decls_of(imms) + lower_lines(l1);
            let text_size = 8 * count_instr_lines(l3);
            match layout_spec(l3, text_size) {
                Err(e) => Err(e),
                Ok(vars) => {
                    let l6 = drop_decls_spec(l3);
                    match build_ops_spec(tagless_lines(l6), tag_bindings(l6), vars) {
                        Err(e) => Err(e),
                        Ok(ops) => Ok((ops, vars)),
                    }
                },
            }
        },
    }
}

proof fn lemma_total_len_prefix_le(lines: Seq<Seq<u8>>, i: int)
    requires
        0 <= i <= lines.len(),
    ensures
        total_len(lines.take(i)) <= total_len(lines),
    decreases lines.len() - i,
{
    if i < lines.len() {
        lemma_total_len_prefix_le(lines, i + 1);
        assert(lines.take(i + 1).drop_last() =~= lines.take(i));
        assert(lines.take(i + 1).last() == lines[i]);
    } else {
        assert(lines.take(i) =~= lines);
    }
}

/// The size of a source, as `total_len` measures it: its bytes plus one per
/// line. `None` when even that sum does not fit the machine; a caller checks
/// this measure against `usize::MAX / 32` before assembling.
pub fn source_total_len(lines: &Vec<Vec<u8>>) -> (r: Option<usize>)
    ensures
        match r {
            Some(t) => t == total_len(views(lines@)),
            None => total_len(views(lines@)) > usize::MAX,
        },
{
    let mut acc: usize = 0;
    let mut i: usize = 0;
    while i < lines.len()
        invariant
            0 <= i <= lines@.len(),
            acc == total_len(views(lines@).take(i as int)),
        decreases lines@.len() - i,
    {
        let ghost vl = views(lines@);
        proof {
            assert(vl.take(i + 1).drop_last() =~= vl.take(i as int));
            assert(vl.take(i + 1).last() == vl[i as int]);
        }
        let a = match acc.checked_add(lines[i].len()) {
            Some(a) => a,
            None => {
                proof {
                    lemma_total_len_prefix_le(vl, i + 1);
                }
                return None;
            },
        };
        let a = match a.checked_add(1) {
            Some(a) => a,
            None => {
                proof {
                    lemma_total_len_prefix_le(vl, i + 1);
                }
                return None;
            },
        };
        acc = a;
        i = i + 1;
    }
    proof {
        assert(views(lines@).take(lines@.len() as int) =~= views(lines@));
    }
    Some(acc)
}

/// Runs the eight passes over the source lines and yields the instruction
/// list and the memory map, or the first diagnostic raised.
pub fn preprocess_source_code(source_code: Vec<Vec<u8>>) -> (r: Result<
    (Vec<Operation>, Vec<VarEntry>),
    Diagnostic,
>)
    requires
        total_len(views(source_code@)) * 32 <= usize::MAX,
    ensures
        match preprocess_spec(views(source_code@)) {
            Ok((ops, vars)) => r is Ok && r->Ok_0.0@ == ops && var_views(r->Ok_0.1@) == vars,
            Err(e) => r is Err && r->Err_0@ == e,
        },
{
    let ghost vl = views(source_code@);
    proof {
        lemma_total_len_bounds(vl);
        lemma_strip_comments_total_len(vl);
        lemma_bang_tokens_len(strip_comments_spec(vl));
        lemma_dedup_first_len(bang_tokens(strip_comments_spec(vl)));
    }
    let l1 = strip_comments(&source_code);
    let imms = match collect_immediates(&l1) {
        Err(e) => {
            return Err(e);
        },
        Ok(imms) => imms,
    };
    let l3 = lower_immediates(&l1, &imms);
    proof {
        lemma_total_len_bounds(strip_comments_spec(vl));
        assert(views(l3@).len() <= 2 * total_len(vl));
        lemma_count_instr_lines_bound(views(l3@));
    }
    let count = count_text_instructions(&l3);
    let text_size = count * 8;
    let vars = match layout_variables(&l3, text_size) {
        Err(e) => {
            return Err(e);
        },
        Ok(vars) => vars,
    };
    let l6 = drop_declarations(&l3);
    proof {
        lemma_drop_decls_len(views(l3@));
    }
    let (l7, tags) = resolve_tags(&l6);
    match build_operations(&l7, &tags, &vars) {
        Err(e) => Err(e),
        Ok(ops) => Ok((ops, vars)),
    }
}

/// What `preprocess_source_code` yields is laid out consistently: the memory
/// map's addresses start right after a text section of 8 bytes per
/// instruction and follow declaration order.
pub proof fn lemma_preprocess_layout(lines: Seq<Seq<u8>>)
    requires
        preprocess_spec(lines) is Ok,
    ensures
        ({
            let (ops, vars) = preprocess_spec(lines)->Ok_0;
            wf_layout(vars, 8 * ops.len() as int)
        }),
{
    let l1 = strip_comments_spec(lines);
    let imms = dedup_first(bang_tokens(l1));
    let l3 = decls_of(imms) + lower_lines(l1);
    let text_size = 8 * count_instr_lines(l3);
    let vars = layout_spec(l3, text_size)->Ok_0;
    let l6 = drop_decls_spec(l3);
    let ops = build_ops_spec(tagless_lines(l6), tag_bindings(l6), vars)->Ok_0;
    lemma_count_instr_lines_bound(l3);
    lemma_layout_addresses(l3, text_size);
    lemma_layout_widths(l3, text_size);
    lemma_build_ops_len(tagless_lines(l6), tag_bindings(l6), vars);
    lemma_tagless_len(l6);
    lemma_strip_no_comments(lines);
    lemma_pass3_no_comments(l1, imms);
    lemma_counts_agree(l3);
    assert(ops.len() == count_instr_lines(l3));
}

/// A prefix of the widths never exceeds the total.
proof fn lemma_width_sum_prefix(entries: Seq<VarSpec>, i: int)
    requires
        0 <= i <= entries.len(),
        forall|k: int|
            0 <= k < entries.len() ==> (#[trigger] entries[k].width == 1 || entries[k].width == 2
                || entries[k].width == 4 || entries[k].width == 8),
    ensures
        width_sum(entries.take(i)) <= width_sum(entries),
    decreases entries.len() - i,
{
    if i < entries.len() {
        lemma_width_sum_prefix(entries, i + 1);
        assert(entries.take(i + 1).drop_last() =~= entries.take(i));
        assert(entries.take(i + 1).last() == entries[i]);
    } else {
        assert(entries.take(i) =~= entries);
    }
}

} // verus!
