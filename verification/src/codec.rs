//! The envelope codec: a verified lexer and recursive-descent parser for the
//! line-oriented JSON wire grammar, and the canonical encoder.

use vstd::prelude::*;
use vstd::string::{StrSliceExecFns, StringExecFns};

use crate::message::{
    BodyV, ErrorMessage, ErrorV, InitMessage, InitV, Message, MessageBody, MessageV,
    ResponseBody, ResponseMessage, ResponseMessageV, TopologyMessage, TopologyV, code_of,
    spec_from_code,
};

verus! {

/// Where inside an envelope a decode failure was found.
#[derive(Debug, Clone, Copy, PartialEq, Eq, Structural)]
pub enum FieldPath {
    Src,
    Dest,
    Body,
    BodyType,
    BodyMsgId,
    BodyNodeId,
    BodyNodeIds,
    BodyTopology,
    BodyInReplyTo,
    BodyCode,
    BodyText,
}

/// Why a line could not be decoded. Decode errors are local to one input
/// line and carry the field path of the failure for diagnostics.
#[derive(Debug, Clone, Copy, PartialEq, Eq, Structural)]
pub enum DecodeError {
    /// The line is not well-formed in the wire grammar.
    Syntax,
    /// A required field is absent.
    Missing(FieldPath),
    /// A field is present with a value of the wrong shape.
    Invalid(FieldPath),
    /// An `error` body carries a numeric code outside the closed set.
    UnknownErrorCode,
    /// Well-formed input continues past the end of the envelope.
    Trailing,
}

/// The field path of a decode failure, as a dotted string.
pub open spec fn spec_path_of(p: FieldPath) -> Seq<char> {
    match p {
        FieldPath::Src => "src"@,
        FieldPath::Dest => "dest"@,
        FieldPath::Body => "body"@,
        FieldPath::BodyType => "body.type"@,
        FieldPath::BodyMsgId => "body.msg_id"@,
        FieldPath::BodyNodeId => "body.node_id"@,
        FieldPath::BodyNodeIds => "body.node_ids"@,
        FieldPath::BodyTopology => "body.topology"@,
        FieldPath::BodyInReplyTo => "body.in_reply_to"@,
        FieldPath::BodyCode => "body.code"@,
        FieldPath::BodyText => "body.text"@,
    }
}

/// The field path a decode error points at; empty when the failure has no
/// single field.
pub open spec fn spec_path(e: DecodeError) -> Seq<char> {
    match e {
        DecodeError::Syntax => ""@,
        DecodeError::Missing(p) => spec_path_of(p),
        DecodeError::Invalid(p) => spec_path_of(p),
        DecodeError::UnknownErrorCode => "body.code"@,
        DecodeError::Trailing => ""@,
    }
}

impl DecodeError {
    /// The field path of the failure, for diagnostics.
    pub fn path(&self) -> (r: &'static str)
        ensures
            r@ == spec_path(*self),
    {
        match self {
            DecodeError::Syntax => "",
            DecodeError::Missing(p) => path_of(*p),
            DecodeError::Invalid(p) => path_of(*p),
            DecodeError::UnknownErrorCode => "body.code",
            DecodeError::Trailing => "",
        }
    }
}

/// The dotted form of a field path.
pub fn path_of(p: FieldPath) -> (r: &'static str)
    ensures
        r@ == spec_path_of(p),
{
    match p {
        FieldPath::Src => "src",
        FieldPath::Dest => "dest",
        FieldPath::Body => "body",
        FieldPath::BodyType => "body.type",
        FieldPath::BodyMsgId => "body.msg_id",
        FieldPath::BodyNodeId => "body.node_id",
        FieldPath::BodyNodeIds => "body.node_ids",
        FieldPath::BodyTopology => "body.topology",
        FieldPath::BodyInReplyTo => "body.in_reply_to",
        FieldPath::BodyCode => "body.code",
        FieldPath::BodyText => "body.text",
    }
}

// ---------------------------------------------------------------------------
// Character classes and scalar forms of the wire grammar
// ---------------------------------------------------------------------------

/// Whitespace accepted between tokens.
pub open spec fn is_ws_char(c: char) -> bool {
    c == ' ' || c == '\n' || c == '\t' || c == '\r'
}

/// Decimal digits.
pub open spec fn is_digit_char(c: char) -> bool {
    c == '0' || c == '1' || c == '2' || c == '3' || c == '4' || c == '5' || c == '6' || c == '7'
        || c == '8' || c == '9'
}

/// Letters that may open or continue a bare word (`true`, `false`, `null`).
pub open spec fn is_word_char(c: char) -> bool {
    c == 't' || c == 'r' || c == 'u' || c == 'e' || c == 'f' || c == 'a' || c == 'l' || c == 's'
        || c == 'n'
}

/// The value of a decimal digit character.
pub open spec fn digit_val(c: char) -> u32 {
    if c == '0' {
        0
    } else if c == '1' {
        1
    } else if c == '2' {
        2
    } else if c == '3' {
        3
    } else if c == '4' {
        4
    } else if c == '5' {
        5
    } else if c == '6' {
        6
    } else if c == '7' {
        7
    } else if c == '8' {
        8
    } else {
        9
    }
}

/// The character of a decimal digit value below ten.
pub open spec fn digit_char(d: u32) -> char {
    if d == 0 {
        '0'
    } else if d == 1 {
        '1'
    } else if d == 2 {
        '2'
    } else if d == 3 {
        '3'
    } else if d == 4 {
        '4'
    } else if d == 5 {
        '5'
    } else if d == 6 {
        '6'
    } else if d == 7 {
        '7'
    } else if d == 8 {
        '8'
    } else {
        '9'
    }
}

/// The character an escape letter stands for, for the escapes the grammar
/// knows; `None` on any other letter.
pub open spec fn unescape_char(c: char) -> Option<char> {
    if c == '"' {
        Some('"')
    } else if c == '\\' {
        Some('\\')
    } else if c == '/' {
        Some('/')
    } else if c == 'n' {
        Some('\n')
    } else if c == 't' {
        Some('\t')
    } else if c == 'r' {
        Some('\r')
    } else {
        None
    }
}

/// How one character is written inside a quoted string.
pub open spec fn esc_char(c: char) -> Seq<char> {
    if c == '"' {
        seq!['\\', '"']
    } else if c == '\\' {
        seq!['\\', '\\']
    } else if c == '\n' {
        seq!['\\', 'n']
    } else if c == '\t' {
        seq!['\\', 't']
    } else if c == '\r' {
        seq!['\\', 'r']
    } else {
        seq![c]
    }
}

/// How a whole string's characters are written inside quotes.
pub open spec fn escape(s: Seq<char>) -> Seq<char>
    decreases s.len(),
{
    if s.len() == 0 {
        Seq::empty()
    } else {
        escape(s.drop_last()) + esc_char(s.last())
    }
}

/// A string as written on the wire: quoted and escaped.
pub open spec fn json_str(s: Seq<char>) -> Seq<char> {
    seq!['"'] + escape(s) + seq!['"']
}

/// The decimal form of a number, most significant digit first.
pub open spec fn ser_u32(n: u32) -> Seq<char>
    decreases n,
{
    if n < 10 {
        seq![digit_char(n)]
    } else {
        ser_u32(n / 10).push(digit_char(n % 10))
    }
}

/// The value of a digit run, most significant digit first.
pub open spec fn digits_val(ds: Seq<char>) -> nat
    decreases ds.len(),
{
    if ds.len() == 0 {
        0
    } else {
        (digits_val(ds.drop_last()) * 10 + digit_val(ds.last())) as nat
    }
}

// ---------------------------------------------------------------------------
// Executable character classes
// ---------------------------------------------------------------------------

/// Whether `c` is whitespace between tokens.
fn is_ws_char_x(c: char) -> (r: bool)
    ensures
        r == is_ws_char(c),
{
    c == ' ' || c == '\n' || c == '\t' || c == '\r'
}

/// Whether `c` is a decimal digit.
fn is_digit_char_x(c: char) -> (r: bool)
    ensures
        r == is_digit_char(c),
{
    c == '0' || c == '1' || c == '2' || c == '3' || c == '4' || c == '5' || c == '6' || c == '7'
        || c == '8' || c == '9'
}

/// Whether `c` may stand in a bare word.
fn is_word_char_x(c: char) -> (r: bool)
    ensures
        r == is_word_char(c),
{
    c == 't' || c == 'r' || c == 'u' || c == 'e' || c == 'f' || c == 'a' || c == 'l' || c == 's'
        || c == 'n'
}

/// The value of a digit character.
fn digit_val_x(c: char) -> (r: u32)
    ensures
        r == digit_val(c),
{
    if c == '0' {
        0
    } else if c == '1' {
        1
    } else if c == '2' {
        2
    } else if c == '3' {
        3
    } else if c == '4' {
        4
    } else if c == '5' {
        5
    } else if c == '6' {
        6
    } else if c == '7' {
        7
    } else if c == '8' {
        8
    } else {
        9
    }
}

/// The character an escape letter stands for.
fn unescape_char_x(c: char) -> (r: Option<char>)
    ensures
        r == unescape_char(c),
{
    if c == '"' {
        Some('"')
    } else if c == '\\' {
        Some('\\')
    } else if c == '/' {
        Some('/')
    } else if c == 'n' {
        Some('\n')
    } else if c == 't' {
        Some('\t')
    } else if c == 'r' {
        Some('\r')
    } else {
        None
    }
}

/// Whether two string slices hold the same characters.
fn str_eq(a: &str, b: &str) -> (r: bool)
    ensures
        r == (a@ == b@),
{
    let na = a.unicode_len();
    let nb = b.unicode_len();
    if na != nb {
        return false;
    }
    let mut i: usize = 0;
    while i < na
        invariant
            na == a@.len(),
            na == b@.len(),
            i <= na,
            forall|k: int| 0 <= k < i ==> a@[k] == b@[k],
        decreases na - i,
    {
        if a.get_char(i) != b.get_char(i) {
            return false;
        }
        i += 1;
    }
    proof {
        assert(a@ =~= b@);
    }
    true
}

// ---------------------------------------------------------------------------
// The lexer
// ---------------------------------------------------------------------------

/// Scans a quoted string's content into `out`; mirrors [`spec_scan_str`].
fn scan_str_x(s: &str, i: usize, n: usize, out: &mut String) -> (r: Option<usize>)
    requires
        n == s@.len(),
    ensures
        match spec_scan_str(s@, i as int) {
            Some(p) => {
                &&& r matches Some(j) && j as int == p.1
                &&& final(out)@ == old(out)@ + p.0
                &&& i < p.1 <= n
            },
            None => r is None,
        },
    decreases n - i,
{
    if i >= n {
        return None;
    }
    let c = s.get_char(i);
    if c == '"' {
        proof {
            assert(out@ + Seq::<char>::empty() =~= out@);
        }
        Some(i + 1)
    } else if c == '\\' {
        if i + 1 >= n {
            return None;
        }
        let e = s.get_char(i + 1);
        match unescape_char_x(e) {
            Some(u) => {
                push_char(out, u);
                let r = scan_str_x(s, i + 2, n, out);
                proof {
                    match spec_scan_str(s@, i + 2) {
                        Some(p) => {
                            assert(old(out)@.push(u) + p.0 =~= old(out)@ + (seq![u] + p.0));
                        },
                        None => {},
                    }
                }
                r
            },
            None => None,
        }
    } else {
        push_char(out, c);
        let r = scan_str_x(s, i + 1, n, out);
        proof {
            match spec_scan_str(s@, i + 1) {
                Some(p) => {
                    assert(old(out)@.push(c) + p.0 =~= old(out)@ + (seq![c] + p.0));
                },
                None => {},
            }
        }
        r
    }
}

/// The index past the digit run at `i`; mirrors [`spec_scan_digits`].
fn scan_digits_end(s: &str, i: usize, n: usize) -> (j: usize)
    requires
        n == s@.len(),
        i <= n,
    ensures
        j as int == i + spec_scan_digits(s@, i as int).len(),
        i <= j <= n,
    decreases n - i,
{
    if i < n {
        let c = s.get_char(i);
        if is_digit_char_x(c) {
            proof {
                lemma_scan_digits_chars(s@, i + 1);
            }
            scan_digits_end(s, i + 1, n)
        } else {
            i
        }
    } else {
        i
    }
}

/// The digit run at `i` consists of the characters there, lies within the
/// text, and is maximal.
pub proof fn lemma_scan_digits_chars(s: Seq<char>, i: int)
    requires
        0 <= i <= s.len(),
    ensures
        i + spec_scan_digits(s, i).len() <= s.len(),
        forall|k: int|
            0 <= k < spec_scan_digits(s, i).len() ==> spec_scan_digits(s, i)[k] == s[i + k]
                && is_digit_char(s[i + k]),
        i + spec_scan_digits(s, i).len() < s.len() ==> !is_digit_char(
            s[i + spec_scan_digits(s, i).len()],
        ),
    decreases s.len() - i,
{
    if i < s.len() && is_digit_char(s[i]) {
        lemma_scan_digits_chars(s, i + 1);
    }
}

/// The value of the digit run from `i` to `j`, with a flag for a value
/// beyond `u32` range.
fn digits_value(s: &str, i: usize, j: usize, n: usize) -> (r: (u64, bool))
    requires
        n == s@.len(),
        i <= j <= n,
        j as int == i + spec_scan_digits(s@, i as int).len(),
    ensures
        ({
            let v = digits_val(spec_scan_digits(s@, i as int));
            if r.1 {
                v > u32::MAX
            } else {
                r.0 == v && v <= u32::MAX
            }
        }),
{
    let ghost ds = spec_scan_digits(s@, i as int);
    proof {
        lemma_scan_digits_chars(s@, i as int);
    }
    let mut acc: u64 = 0;
    let mut big: bool = false;
    let mut k: usize = i;
    while k < j
        invariant
            n == s@.len(),
            i <= k <= j <= n,
            j as int == i + ds.len(),
            ds == spec_scan_digits(s@, i as int),
            forall|m: int| 0 <= m < ds.len() ==> ds[m] == s@[i + m] && is_digit_char(s@[i + m]),
            !big ==> acc == digits_val(ds.take(k - i)) && digits_val(ds.take(k - i)) <= u32::MAX,
            big ==> digits_val(ds.take(k - i)) > u32::MAX,
        decreases j - k,
    {
        let c = s.get_char(k);
        let d = digit_val_x(c);
        proof {
            assert(ds.take(k - i + 1).drop_last() =~= ds.take(k - i));
            assert(ds.take(k - i + 1).last() == ds[k - i]);
        }
        if !big {
            let acc2: u64 = acc * 10 + (d as u64);
            if acc2 > 0xffff_ffff {
                big = true;
            }
            acc = acc2;
        }
        k += 1;
    }
    proof {
        assert(ds.take(j - i) =~= ds);
    }
    (acc, big)
}

/// The fraction part's end; mirrors [`spec_num_end_frac`].
fn num_end_frac(s: &str, j: usize, n: usize) -> (r: Option<(bool, usize)>)
    requires
        n == s@.len(),
        j <= n,
    ensures
        match spec_num_end_frac(s@, j as int) {
            Some(p) => r matches Some(q) && q.0 == p.0 && q.1 as int == p.1 && j <= p.1 <= n,
            None => r is None,
        },
{
    if j < n {
        let c = s.get_char(j);
        if c == '.' {
            let fe = scan_digits_end(s, j + 1, n);
            if fe == j + 1 {
                return None;
            }
            return Some((true, fe));
        }
    }
    Some((false, j))
}

/// The exponent part's end; mirrors [`spec_num_end_exp`].
fn num_end_exp(s: &str, j: usize, n: usize) -> (r: Option<(bool, usize)>)
    requires
        n == s@.len(),
        j <= n,
    ensures
        match spec_num_end_exp(s@, j as int) {
            Some(p) => r matches Some(q) && q.0 == p.0 && q.1 as int == p.1 && j <= p.1 <= n,
            None => r is None,
        },
{
    if j < n {
        let c = s.get_char(j);
        if c == 'e' || c == 'E' {
            let k = if j + 1 < n {
                let c2 = s.get_char(j + 1);
                if c2 == '+' || c2 == '-' {
                    j + 2
                } else {
                    j + 1
                }
            } else {
                j + 1
            };
            let ee = scan_digits_end(s, k, n);
            if ee == k {
                return None;
            }
            return Some((true, ee));
        }
    }
    Some((false, j))
}

/// Lexes one number; mirrors [`spec_lex_num`].
fn lex_num(s: &str, i: usize, n: usize) -> (r: Option<(Token, usize)>)
    requires
        n == s@.len(),
        i < n,
    ensures
        match spec_lex_num(s@, i as int) {
            Some(p) => r matches Some(q) && q.0@ == p.0 && q.1 as int == p.1 && i < p.1 <= n,
            None => r is None,
        },
{
    let c0 = s.get_char(i);
    let neg = c0 == '-';
    let di = if neg {
        i + 1
    } else {
        i
    };
    let dend = scan_digits_end(s, di, n);
    if dend == di {
        return None;
    }
    match num_end_frac(s, dend, n) {
        None => None,
        Some((f, j1)) => match num_end_exp(s, j1, n) {
            None => None,
            Some((e2, j2)) => {
                if neg || f || e2 {
                    Some((Token::NumBig, j2))
                } else {
                    let (v, big) = digits_value(s, di, dend, n);
                    if big {
                        Some((Token::NumBig, j2))
                    } else {
                        Some((Token::NumTok(v as u32), j2))
                    }
                }
            },
        },
    }
}

/// The index past the word at `i`; mirrors [`spec_scan_word`].
fn scan_word_end(s: &str, i: usize, n: usize) -> (j: usize)
    requires
        n == s@.len(),
        i <= n,
    ensures
        j as int == spec_scan_word(s@, i as int),
        i <= j <= n,
    decreases n - i,
{
    if i < n {
        let c = s.get_char(i);
        if is_word_char_x(c) {
            scan_word_end(s, i + 1, n)
        } else {
            i
        }
    } else {
        i
    }
}

/// The models of a token run grow one model per pushed token.
proof fn lemma_toks_view_push(ts: Seq<Token>, t: Token)
    ensures
        toks_view(ts.push(t)) =~= toks_view(ts).push(t@),
{
}

/// Lexes the text from `i` on, appending tokens to `acc`; mirrors
/// [`spec_tokenize_from`].
#[verifier::rlimit(60)]
fn lex_from(s: &str, i: usize, n: usize, acc: &mut Vec<Token>) -> (ok: bool)
    requires
        n == s@.len(),
        i <= n,
    ensures
        match spec_tokenize_from(s@, i as int) {
            Some(ts) => ok && toks_view(final(acc)@) == toks_view(old(acc)@) + ts,
            None => !ok,
        },
    decreases n - i,
{
    if i == n {
        proof {
            assert(toks_view(acc@) + Seq::<Tok>::empty() =~= toks_view(acc@));
        }
        return true;
    }
    let c = s.get_char(i);
    if is_ws_char_x(c) {
        lex_from(s, i + 1, n, acc)
    } else if c == '{' || c == '}' || c == '[' || c == ']' || c == ':' || c == ',' {
        let t = if c == '{' {
            Token::LBrace
        } else if c == '}' {
            Token::RBrace
        } else if c == '[' {
            Token::LBrack
        } else if c == ']' {
            Token::RBrack
        } else if c == ':' {
            Token::Colon
        } else {
            Token::Comma
        };
        let ghost tv = t@;
        acc.push(t);
        let ghost mid = acc@;
        let ok = lex_from(s, i + 1, n, acc);
        proof {
            lemma_toks_view_push(old(acc)@, mid.last());
            match spec_tokenize_from(s@, i + 1) {
                Some(ts) => {
                    assert(toks_view(old(acc)@).push(tv) + ts =~= toks_view(old(acc)@) + (
                    seq![tv] + ts));
                },
                None => {},
            }
        }
        ok
    } else if c == '"' {
        let mut content = String::new();
        match scan_str_x(s, i + 1, n, &mut content) {
            None => false,
            Some(j) => {
                let ghost tv = Tok::StrTok(content@);
                acc.push(Token::StrTok(content));
                let ghost mid = acc@;
                let ok = lex_from(s, j, n, acc);
                proof {
                    lemma_toks_view_push(old(acc)@, mid.last());
                    match spec_tokenize_from(s@, j as int) {
                        Some(ts) => {
                            assert(toks_view(old(acc)@).push(tv) + ts =~= toks_view(old(acc)@) + (
                            seq![tv] + ts));
                        },
                        None => {},
                    }
                }
                ok
            },
        }
    } else if is_digit_char_x(c) || c == '-' {
        match lex_num(s, i, n) {
            None => false,
            Some((t, j)) => {
                let ghost tv = t@;
                acc.push(t);
                let ghost mid = acc@;
                let ok = lex_from(s, j, n, acc);
                proof {
                    lemma_toks_view_push(old(acc)@, mid.last());
                    match spec_tokenize_from(s@, j as int) {
                        Some(ts) => {
                            assert(toks_view(old(acc)@).push(tv) + ts =~= toks_view(old(acc)@) + (
                            seq![tv] + ts));
                        },
                        None => {},
                    }
                }
                ok
            },
        }
    } else if is_word_char_x(c) {
        let j = scan_word_end(s, i, n);
        if j <= i {
            return false;
        }
        let ghost tv = Tok::Word;
        acc.push(Token::Word);
        let ghost mid = acc@;
        let ok = lex_from(s, j, n, acc);
        proof {
            lemma_toks_view_push(old(acc)@, mid.last());
            match spec_tokenize_from(s@, j as int) {
                Some(ts) => {
                    assert(toks_view(old(acc)@).push(tv) + ts =~= toks_view(old(acc)@) + (
                    seq![tv] + ts));
                },
                None => {},
            }
        }
        ok
    } else {
        false
    }
}

/// Lexes a whole line; `None` when the line is not a run of well-formed
/// tokens.
fn tokenize(s: &str) -> (r: Option<Vec<Token>>)
    ensures
        match spec_tokenize_from(s@, 0) {
            Some(ts) => r matches Some(v) && toks_view(v@) == ts,
            None => r is None,
        },
{
    let n = s.unicode_len();
    let mut acc: Vec<Token> = Vec::new();
    let ok = lex_from(s, 0, n, &mut acc);
    if ok {
        proof {
            assert(toks_view(Seq::<Token>::empty()) =~= Seq::<Tok>::empty());
            match spec_tokenize_from(s@, 0) {
                Some(ts) => {
                    assert(Seq::<Tok>::empty() + ts =~= ts);
                },
                None => {},
            }
        }
        Some(acc)
    } else {
        None
    }
}

// ---------------------------------------------------------------------------
// Canonical encoding
// ---------------------------------------------------------------------------

/// The canonical comma-separated element list of a string array.
pub open spec fn arr_elems(ss: Seq<Seq<char>>) -> Seq<char>
    decreases ss.len(),
{
    if ss.len() == 0 {
        Seq::empty()
    } else if ss.len() == 1 {
        json_str(ss[0])
    } else {
        arr_elems(ss.drop_last()) + seq![','] + json_str(ss.last())
    }
}

/// The canonical form of a string array.
pub open spec fn spec_encode_arr(ss: Seq<Seq<char>>) -> Seq<char> {
    seq!['['] + arr_elems(ss) + seq![']']
}

/// The canonical form of a body.
pub open spec fn spec_encode_body(b: BodyV) -> Seq<char> {
    match b {
        BodyV::Init(m) => "{\"type\":\"init\",\"msg_id\":"@ + ser_u32(m.msg_id)
            + ",\"node_id\":"@ + json_str(m.node_id) + ",\"node_ids\":"@ + spec_encode_arr(
            m.node_ids,
        ) + "}"@,
        BodyV::Topology(m) => "{\"type\":\"topology\",\"msg_id\":"@ + ser_u32(m.msg_id)
            + ",\"topology\":"@ + spec_encode_arr(m.topology) + "}"@,
        BodyV::Error(m) => "{\"type\":\"error\",\"in_reply_to\":"@ + ser_u32(m.in_reply_to)
            + ",\"code\":"@ + ser_u32(code_of(m.code)) + ",\"text\":"@ + json_str(m.text) + "}"@,
        BodyV::Unknown => "{\"type\":\"unknown\"}"@,
    }
}

/// The canonical form of an envelope.
pub open spec fn spec_encode_msg(m: MessageV) -> Seq<char> {
    "{\"src\":"@ + json_str(m.src) + ",\"dest\":"@ + json_str(m.dest) + ",\"body\":"@
        + spec_encode_body(m.body) + "}"@
}

/// The canonical form of a reply body.
pub open spec fn spec_encode_resp_body(b: ResponseBody) -> Seq<char> {
    match b {
        ResponseBody::InitOk(x) => "{\"type\":\"init_ok\",\"in_reply_to\":"@ + ser_u32(
            x.in_reply_to,
        ) + ",\"msg_id\":"@ + ser_u32(x.msg_id) + "}"@,
        ResponseBody::TopologyOk(x) => "{\"type\":\"topology_ok\",\"msg_id\":"@ + ser_u32(
            x.msg_id,
        ) + ",\"in_reply_to\":"@ + ser_u32(x.in_reply_to) + "}"@,
    }
}

/// The canonical form of a reply envelope.
pub open spec fn spec_encode_resp(m: ResponseMessageV) -> Seq<char> {
    "{\"src\":"@ + json_str(m.src) + ",\"dest\":"@ + json_str(m.dest) + ",\"body\":"@
        + spec_encode_resp_body(m.body) + "}"@
}

// ---------------------------------------------------------------------------
// Lexical tokens
// ---------------------------------------------------------------------------

/// Mathematical model of a lexical token.
pub enum Tok {
    LBrace,
    RBrace,
    LBrack,
    RBrack,
    Colon,
    Comma,
    StrTok(Seq<char>),
    NumTok(u32),
    NumBig,
    Word,
}

/// A lexical token of the wire grammar. Numbers that are not plain decimal
/// integers within range (negative, fractional, exponential or oversized
/// forms) lex as `NumBig`: they can be skipped but fit no numeric field.
/// Bare words (`true`, `false`, `null`) lex as `Word`.
#[derive(Debug)]
pub enum Token {
    LBrace,
    RBrace,
    LBrack,
    RBrack,
    Colon,
    Comma,
    StrTok(String),
    NumTok(u32),
    NumBig,
    Word,
}

impl View for Token {
    type V = Tok;

    open spec fn view(&self) -> Tok {
        match self {
            Token::LBrace => Tok::LBrace,
            Token::RBrace => Tok::RBrace,
            Token::LBrack => Tok::LBrack,
            Token::RBrack => Tok::RBrack,
            Token::Colon => Tok::Colon,
            Token::Comma => Tok::Comma,
            Token::StrTok(s) => Tok::StrTok(s@),
            Token::NumTok(n) => Tok::NumTok(*n),
            Token::NumBig => Tok::NumBig,
            Token::Word => Tok::Word,
        }
    }
}

/// The models of a run of tokens.
pub open spec fn toks_view(ts: Seq<Token>) -> Seq<Tok> {
    ts.map_values(|t: Token| t@)
}

// ---------------------------------------------------------------------------
// The lexer, specified
// ---------------------------------------------------------------------------

/// Scans the inside of a quoted string from `i` up to and past its closing
/// quote, undoing escapes; `None` when the string is unterminated or an
/// escape letter is unknown. Returns the content and the index after the
/// closing quote.
pub open spec fn spec_scan_str(s: Seq<char>, i: int) -> Option<(Seq<char>, int)>
    decreases s.len() - i,
{
    if i < 0 || i >= s.len() {
        None
    } else {
        let c = s[i];
        if c == '"' {
            Some((Seq::empty(), i + 1))
        } else if c == '\\' {
            if i + 1 < s.len() {
                match unescape_char(s[i + 1]) {
                    Some(u) => match spec_scan_str(s, i + 2) {
                        Some(p) => Some((seq![u] + p.0, p.1)),
                        None => None,
                    },
                    None => None,
                }
            } else {
                None
            }
        } else {
            match spec_scan_str(s, i + 1) {
                Some(p) => Some((seq![c] + p.0, p.1)),
                None => None,
            }
        }
    }
}

/// The maximal run of decimal digits starting at `i`.
pub open spec fn spec_scan_digits(s: Seq<char>, i: int) -> Seq<char>
    decreases s.len() - i,
{
    if 0 <= i && i < s.len() && is_digit_char(s[i]) {
        seq![s[i]] + spec_scan_digits(s, i + 1)
    } else {
        Seq::empty()
    }
}

/// The index past the maximal run of word letters starting at `i`.
pub open spec fn spec_scan_word(s: Seq<char>, i: int) -> int
    decreases s.len() - i,
{
    if 0 <= i && i < s.len() && is_word_char(s[i]) {
        spec_scan_word(s, i + 1)
    } else {
        i
    }
}

/// Scans an optional fraction part at `j`; the flag says whether one was
/// there. `None` when a decimal point has no digits after it.
pub open spec fn spec_num_end_frac(s: Seq<char>, j: int) -> Option<(bool, int)> {
    if 0 <= j && j < s.len() && s[j] == '.' {
        let fs = spec_scan_digits(s, j + 1);
        if fs.len() == 0 {
            None
        } else {
            Some((true, j + 1 + fs.len()))
        }
    } else {
        Some((false, j))
    }
}

/// Scans an optional exponent part at `j`.
pub open spec fn spec_num_end_exp(s: Seq<char>, j: int) -> Option<(bool, int)> {
    if 0 <= j && j < s.len() && (s[j] == 'e' || s[j] == 'E') {
        let k = if j + 1 < s.len() && (s[j + 1] == '+' || s[j + 1] == '-') {
            j + 2
        } else {
            j + 1
        };
        let es = spec_scan_digits(s, k);
        if es.len() == 0 {
            None
        } else {
            Some((true, k + es.len()))
        }
    } else {
        Some((false, j))
    }
}

/// Lexes one number starting at `i`. A plain decimal integer within `u32`
/// range becomes `NumTok`; any other well-formed number form becomes
/// `NumBig`.
pub open spec fn spec_lex_num(s: Seq<char>, i: int) -> Option<(Tok, int)> {
    if i < 0 || i >= s.len() {
        None
    } else {
        let neg = s[i] == '-';
        let di = if neg {
            i + 1
        } else {
            i
        };
        let ds = spec_scan_digits(s, di);
        if ds.len() == 0 {
            None
        } else {
            match spec_num_end_frac(s, di + ds.len()) {
                None => None,
                Some(f) => match spec_num_end_exp(s, f.1) {
                    None => None,
                    Some(e) => {
                        let t = if neg || f.0 || e.0 || digits_val(ds) > u32::MAX {
                            Tok::NumBig
                        } else {
                            Tok::NumTok(digits_val(ds) as u32)
                        };
                        Some((t, e.1))
                    },
                },
            }
        }
    }
}

/// Prepends a token to the outcome of lexing the rest.
pub open spec fn cons_tok(t: Tok, rest: Option<Seq<Tok>>) -> Option<Seq<Tok>> {
    match rest {
        Some(ts) => Some(seq![t] + ts),
        None => None,
    }
}

/// Lexes the whole text from `i` on into tokens; `None` on a character no
/// token can start with, an unterminated or ill-escaped string, or a
/// malformed number.
pub open spec fn spec_tokenize_from(s: Seq<char>, i: int) -> Option<Seq<Tok>>
    decreases s.len() - i,
{
    if i < 0 || i > s.len() {
        None
    } else if i == s.len() {
        Some(Seq::empty())
    } else {
        let c = s[i];
        if is_ws_char(c) {
            spec_tokenize_from(s, i + 1)
        } else if c == '{' {
            cons_tok(Tok::LBrace, spec_tokenize_from(s, i + 1))
        } else if c == '}' {
            cons_tok(Tok::RBrace, spec_tokenize_from(s, i + 1))
        } else if c == '[' {
            cons_tok(Tok::LBrack, spec_tokenize_from(s, i + 1))
        } else if c == ']' {
            cons_tok(Tok::RBrack, spec_tokenize_from(s, i + 1))
        } else if c == ':' {
            cons_tok(Tok::Colon, spec_tokenize_from(s, i + 1))
        } else if c == ',' {
            cons_tok(Tok::Comma, spec_tokenize_from(s, i + 1))
        } else if c == '"' {
            match spec_scan_str(s, i + 1) {
                Some(p) => if i < p.1 && p.1 <= s.len() {
                    cons_tok(Tok::StrTok(p.0), spec_tokenize_from(s, p.1))
                } else {
                    None
                },
                None => None,
            }
        } else if is_digit_char(c) || c == '-' {
            match spec_lex_num(s, i) {
                Some(p) => if i < p.1 && p.1 <= s.len() {
                    cons_tok(p.0, spec_tokenize_from(s, p.1))
                } else {
                    None
                },
                None => None,
            }
        } else if is_word_char(c) {
            let j = spec_scan_word(s, i);
            if i < j && j <= s.len() {
                cons_tok(Tok::Word, spec_tokenize_from(s, j))
            } else {
                None
            }
        } else {
            None
        }
    }
}

// ---------------------------------------------------------------------------
// The parser, specified
// ---------------------------------------------------------------------------

/// A field slot while an object's members are collected: not seen yet, seen
/// with a usable value, or seen with a value of the wrong shape. When a key
/// repeats, the last occurrence wins.
pub enum SlotV<T> {
    Absent,
    Val(T),
    Bad,
}

/// The collected members of a body object.
pub struct BodySlotsV {
    pub tag: SlotV<Seq<char>>,
    pub msg_id: SlotV<u32>,
    pub node_id: SlotV<Seq<char>>,
    pub node_ids: SlotV<Seq<Seq<char>>>,
    pub topology: SlotV<Seq<Seq<char>>>,
    pub in_reply_to: SlotV<u32>,
    pub code: SlotV<u32>,
    pub text: SlotV<Seq<char>>,
}

/// The collected members of an envelope object.
pub struct EnvSlotsV {
    pub src: Option<Seq<char>>,
    pub dest: Option<Seq<char>>,
    pub body: Option<BodyV>,
}

/// No body member seen yet.
pub open spec fn body_slots0() -> BodySlotsV {
    BodySlotsV {
        tag: SlotV::Absent,
        msg_id: SlotV::Absent,
        node_id: SlotV::Absent,
        node_ids: SlotV::Absent,
        topology: SlotV::Absent,
        in_reply_to: SlotV::Absent,
        code: SlotV::Absent,
        text: SlotV::Absent,
    }
}

/// No envelope member seen yet.
pub open spec fn env_slots0() -> EnvSlotsV {
    EnvSlotsV { src: None, dest: None, body: None }
}

/// Skips past one whole value starting at `k`, whatever its shape.
pub open spec fn spec_skip_value(ts: Seq<Tok>, k: int) -> Option<int> {
    if k < 0 || k >= ts.len() {
        None
    } else {
        match ts[k] {
            Tok::StrTok(_) => Some(k + 1),
            Tok::NumTok(_) => Some(k + 1),
            Tok::NumBig => Some(k + 1),
            Tok::Word => Some(k + 1),
            Tok::LBrace => spec_skip_until(ts, k + 1, 1),
            Tok::LBrack => spec_skip_until(ts, k + 1, 1),
            _ => None,
        }
    }
}

/// Skips tokens until the bracket nesting opened before `k` closes.
pub open spec fn spec_skip_until(ts: Seq<Tok>, k: int, depth: int) -> Option<int>
    decreases ts.len() - k,
{
    if k < 0 || k >= ts.len() {
        None
    } else {
        match ts[k] {
            Tok::LBrace => spec_skip_until(ts, k + 1, depth + 1),
            Tok::LBrack => spec_skip_until(ts, k + 1, depth + 1),
            Tok::RBrace => if depth == 1 {
                Some(k + 1)
            } else {
                spec_skip_until(ts, k + 1, depth - 1)
            },
            Tok::RBrack => if depth == 1 {
                Some(k + 1)
            } else {
                spec_skip_until(ts, k + 1, depth - 1)
            },
            _ => spec_skip_until(ts, k + 1, depth),
        }
    }
}

/// The string value at `k`, if the value there is a string.
pub open spec fn spec_read_str(ts: Seq<Tok>, v: int) -> SlotV<Seq<char>> {
    if 0 <= v && v < ts.len() && ts[v] is StrTok {
        SlotV::Val(ts[v]->StrTok_0)
    } else {
        SlotV::Bad
    }
}

/// The number at `k`, if the value there is a plain in-range integer.
pub open spec fn spec_read_num(ts: Seq<Tok>, v: int) -> SlotV<u32> {
    if 0 <= v && v < ts.len() && ts[v] is NumTok {
        SlotV::Val(ts[v]->NumTok_0)
    } else {
        SlotV::Bad
    }
}

/// The strings of a `[...]` value whose elements are all strings, read from
/// the first element position `k`.
pub open spec fn spec_read_elems(ts: Seq<Tok>, k: int) -> Option<Seq<Seq<char>>>
    decreases ts.len() - k,
{
    if k < 0 || k >= ts.len() {
        None
    } else if ts[k] is RBrack {
        Some(Seq::empty())
    } else {
        match ts[k] {
            Tok::StrTok(s) => if k + 1 < ts.len() {
                if ts[k + 1] is RBrack {
                    Some(seq![s])
                } else if ts[k + 1] is Comma {
                    match spec_read_elems(ts, k + 2) {
                        Some(r) => Some(seq![s] + r),
                        None => None,
                    }
                } else {
                    None
                }
            } else {
                None
            },
            _ => None,
        }
    }
}

/// The string list at `v`, if the value there is an array of strings.
pub open spec fn spec_read_list(ts: Seq<Tok>, v: int) -> SlotV<Seq<Seq<char>>> {
    if 0 <= v && v < ts.len() && ts[v] is LBrack {
        match spec_read_elems(ts, v + 1) {
            Some(ss) => SlotV::Val(ss),
            None => SlotV::Bad,
        }
    } else {
        SlotV::Bad
    }
}

/// Files the value at `v` into the slot its key names; an unrecognized key
/// changes nothing.
pub open spec fn spec_body_slot_update(
    acc: BodySlotsV,
    key: Seq<char>,
    ts: Seq<Tok>,
    v: int,
) -> BodySlotsV {
    if key == "type"@ {
        BodySlotsV { tag: spec_read_str(ts, v), ..acc }
    } else if key == "msg_id"@ {
        BodySlotsV { msg_id: spec_read_num(ts, v), ..acc }
    } else if key == "node_id"@ {
        BodySlotsV { node_id: spec_read_str(ts, v), ..acc }
    } else if key == "node_ids"@ {
        BodySlotsV { node_ids: spec_read_list(ts, v), ..acc }
    } else if key == "topology"@ {
        BodySlotsV { topology: spec_read_list(ts, v), ..acc }
    } else if key == "in_reply_to"@ {
        BodySlotsV { in_reply_to: spec_read_num(ts, v), ..acc }
    } else if key == "code"@ {
        BodySlotsV { code: spec_read_num(ts, v), ..acc }
    } else if key == "text"@ {
        BodySlotsV { text: spec_read_str(ts, v), ..acc }
    } else {
        acc
    }
}

/// Collects the members of a body object from `k` (just past its opening
/// brace) to just past its closing brace. Unknown members are skipped:
/// decoding never fails merely because of an unrecognized field.
pub open spec fn spec_parse_body_members(
    ts: Seq<Tok>,
    k: int,
    acc: BodySlotsV,
    first: bool,
) -> Result<(BodySlotsV, int), DecodeError>
    decreases ts.len() - k,
{
    if k < 0 || k >= ts.len() {
        Err(DecodeError::Syntax)
    } else if first && ts[k] is RBrace {
        Ok((acc, k + 1))
    } else {
        match ts[k] {
            Tok::StrTok(key) => if k + 1 < ts.len() && ts[k + 1] is Colon {
                match spec_skip_value(ts, k + 2) {
                    Some(j) => if k + 2 < j && j <= ts.len() {
                        let acc2 = spec_body_slot_update(acc, key, ts, k + 2);
                        if j < ts.len() {
                            if ts[j] is Comma {
                                spec_parse_body_members(ts, j + 1, acc2, false)
                            } else if ts[j] is RBrace {
                                Ok((acc2, j + 1))
                            } else {
                                Err(DecodeError::Syntax)
                            }
                        } else {
                            Err(DecodeError::Syntax)
                        }
                    } else {
                        Err(DecodeError::Syntax)
                    },
                    None => Err(DecodeError::Syntax),
                }
            } else {
                Err(DecodeError::Syntax)
            },
            _ => Err(DecodeError::Syntax),
        }
    }
}

/// Builds the typed body the collected members describe. The tag decides the
/// kind; a tag outside the known set gives `Unknown`, whatever else the body
/// held. For a known kind, each required member must be present with the
/// right shape, and an `error` body's numeric code must lie in the closed
/// set.
pub open spec fn spec_interp_body(sl: BodySlotsV) -> Result<BodyV, DecodeError> {
    match sl.tag {
        SlotV::Absent => Err(DecodeError::Missing(FieldPath::BodyType)),
        SlotV::Bad => Err(DecodeError::Invalid(FieldPath::BodyType)),
        SlotV::Val(tag) => if tag == "init"@ {
            match sl.msg_id {
                SlotV::Absent => Err(DecodeError::Missing(FieldPath::BodyMsgId)),
                SlotV::Bad => Err(DecodeError::Invalid(FieldPath::BodyMsgId)),
                SlotV::Val(m) => match sl.node_id {
                    SlotV::Absent => Err(DecodeError::Missing(FieldPath::BodyNodeId)),
                    SlotV::Bad => Err(DecodeError::Invalid(FieldPath::BodyNodeId)),
                    SlotV::Val(nid) => match sl.node_ids {
                        SlotV::Absent => Err(DecodeError::Missing(FieldPath::BodyNodeIds)),
                        SlotV::Bad => Err(DecodeError::Invalid(FieldPath::BodyNodeIds)),
                        SlotV::Val(nids) => Ok(
                            BodyV::Init(InitV { msg_id: m, node_id: nid, node_ids: nids }),
                        ),
                    },
                },
            }
        } else if tag == "topology"@ {
            match sl.msg_id {
                SlotV::Absent => Err(DecodeError::Missing(FieldPath::BodyMsgId)),
                SlotV::Bad => Err(DecodeError::Invalid(FieldPath::BodyMsgId)),
                SlotV::Val(m) => match sl.topology {
                    SlotV::Absent => Err(DecodeError::Missing(FieldPath::BodyTopology)),
                    SlotV::Bad => Err(DecodeError::Invalid(FieldPath::BodyTopology)),
                    SlotV::Val(tp) => Ok(BodyV::Topology(TopologyV { msg_id: m, topology: tp })),
                },
            }
        } else if tag == "error"@ {
            match sl.in_reply_to {
                SlotV::Absent => Err(DecodeError::Missing(FieldPath::BodyInReplyTo)),
                SlotV::Bad => Err(DecodeError::Invalid(FieldPath::BodyInReplyTo)),
                SlotV::Val(irt) => match sl.code {
                    SlotV::Absent => Err(DecodeError::Missing(FieldPath::BodyCode)),
                    SlotV::Bad => Err(DecodeError::Invalid(FieldPath::BodyCode)),
                    SlotV::Val(c) => match spec_from_code(c) {
                        None => Err(DecodeError::UnknownErrorCode),
                        Some(ec) => match sl.text {
                            SlotV::Absent => Err(DecodeError::Missing(FieldPath::BodyText)),
                            SlotV::Bad => Err(DecodeError::Invalid(FieldPath::BodyText)),
                            SlotV::Val(tx) => Ok(
                                BodyV::Error(ErrorV { in_reply_to: irt, code: ec, text: tx }),
                            ),
                        },
                    },
                },
            }
        } else {
            Ok(BodyV::Unknown)
        },
    }
}

/// Collects the members of an envelope object from `k` (just past its
/// opening brace). `src` and `dest` must be strings and `body` an object;
/// unknown members are skipped.
pub open spec fn spec_parse_env_members(
    ts: Seq<Tok>,
    k: int,
    acc: EnvSlotsV,
    first: bool,
) -> Result<(EnvSlotsV, int), DecodeError>
    decreases ts.len() - k, 0int,
{
    if k < 0 || k >= ts.len() {
        Err(DecodeError::Syntax)
    } else if first && ts[k] is RBrace {
        Ok((acc, k + 1))
    } else {
        match ts[k] {
            Tok::StrTok(key) => if k + 1 < ts.len() && ts[k + 1] is Colon {
                if key == "src"@ {
                    if k + 2 < ts.len() {
                        match ts[k + 2] {
                            Tok::StrTok(v) => spec_env_after_value(
                                ts,
                                k + 3,
                                EnvSlotsV { src: Some(v), ..acc },
                            ),
                            _ => Err(DecodeError::Invalid(FieldPath::Src)),
                        }
                    } else {
                        Err(DecodeError::Syntax)
                    }
                } else if key == "dest"@ {
                    if k + 2 < ts.len() {
                        match ts[k + 2] {
                            Tok::StrTok(v) => spec_env_after_value(
                                ts,
                                k + 3,
                                EnvSlotsV { dest: Some(v), ..acc },
                            ),
                            _ => Err(DecodeError::Invalid(FieldPath::Dest)),
                        }
                    } else {
                        Err(DecodeError::Syntax)
                    }
                } else if key == "body"@ {
                    if k + 2 < ts.len() && ts[k + 2] is LBrace {
                        match spec_parse_body_members(ts, k + 3, body_slots0(), true) {
                            Err(e) => Err(e),
                            Ok(p) => if k + 3 < p.1 && p.1 <= ts.len() {
                                match spec_interp_body(p.0) {
                                    Err(e) => Err(e),
                                    Ok(bv) => spec_env_after_value(
                                        ts,
                                        p.1,
                                        EnvSlotsV { body: Some(bv), ..acc },
                                    ),
                                }
                            } else {
                                Err(DecodeError::Syntax)
                            },
                        }
                    } else if k + 2 < ts.len() {
                        Err(DecodeError::Invalid(FieldPath::Body))
                    } else {
                        Err(DecodeError::Syntax)
                    }
                } else {
                    match spec_skip_value(ts, k + 2) {
                        Some(j) => if k + 2 < j && j <= ts.len() {
                            spec_env_after_value(ts, j, acc)
                        } else {
                            Err(DecodeError::Syntax)
                        },
                        None => Err(DecodeError::Syntax),
                    }
                }
            } else {
                Err(DecodeError::Syntax)
            },
            _ => Err(DecodeError::Syntax),
        }
    }
}

/// After an envelope member's value ending at `j`: a comma continues the
/// member list, a closing brace ends it.
pub open spec fn spec_env_after_value(
    ts: Seq<Tok>,
    j: int,
    acc: EnvSlotsV,
) -> Result<(EnvSlotsV, int), DecodeError>
    decreases ts.len() - j, 1int,
{
    if 0 <= j && j < ts.len() {
        if ts[j] is Comma {
            spec_parse_env_members(ts, j + 1, acc, false)
        } else if ts[j] is RBrace {
            Ok((acc, j + 1))
        } else {
            Err(DecodeError::Syntax)
        }
    } else {
        Err(DecodeError::Syntax)
    }
}

/// Parses a whole token run as one envelope: strict on the envelope shape
/// (`src`, `dest` and `body` all required), with nothing after it.
pub open spec fn spec_parse_message(ts: Seq<Tok>) -> Result<MessageV, DecodeError> {
    if ts.len() == 0 || !(ts[0] is LBrace) {
        Err(DecodeError::Syntax)
    } else {
        match spec_parse_env_members(ts, 1, env_slots0(), true) {
            Err(e) => Err(e),
            Ok(p) => if p.1 < ts.len() {
                Err(DecodeError::Trailing)
            } else {
                match p.0.src {
                    None => Err(DecodeError::Missing(FieldPath::Src)),
                    Some(src) => match p.0.dest {
                        None => Err(DecodeError::Missing(FieldPath::Dest)),
                        Some(dest) => match p.0.body {
                            None => Err(DecodeError::Missing(FieldPath::Body)),
                            Some(b) => Ok(MessageV { src, dest, body: b }),
                        },
                    },
                }
            },
        }
    }
}

/// Parses a whole token run as one body object.
pub open spec fn spec_parse_body_obj(ts: Seq<Tok>) -> Result<BodyV, DecodeError> {
    if ts.len() == 0 || !(ts[0] is LBrace) {
        Err(DecodeError::Syntax)
    } else {
        match spec_parse_body_members(ts, 1, body_slots0(), true) {
            Err(e) => Err(e),
            Ok(p) => if p.1 < ts.len() {
                Err(DecodeError::Trailing)
            } else {
                spec_interp_body(p.0)
            },
        }
    }
}

/// What decoding one line yields: the envelope its tokens describe, or the
/// first failure.
pub open spec fn spec_decode(text: Seq<char>) -> Result<MessageV, DecodeError> {
    match spec_tokenize_from(text, 0) {
        None => Err(DecodeError::Syntax),
        Some(ts) => spec_parse_message(ts),
    }
}

/// What decoding one body object yields.
pub open spec fn spec_decode_body(text: Seq<char>) -> Result<BodyV, DecodeError> {
    match spec_tokenize_from(text, 0) {
        None => Err(DecodeError::Syntax),
        Some(ts) => spec_parse_body_obj(ts),
    }
}

/// Relies on `String::push`: appends exactly the one character.
#[verifier::external_body]
fn push_char(s: &mut String, c: char)
    ensures
        final(s)@ == old(s)@.push(c),
{
    s.push(c);
}

/// The decimal digit character of a value below ten.
fn digit_char_x(d: u32) -> (c: char)
    requires
        d < 10,
    ensures
        c == digit_char(d),
{
    if d == 0 {
        '0'
    } else if d == 1 {
        '1'
    } else if d == 2 {
        '2'
    } else if d == 3 {
        '3'
    } else if d == 4 {
        '4'
    } else if d == 5 {
        '5'
    } else if d == 6 {
        '6'
    } else if d == 7 {
        '7'
    } else if d == 8 {
        '8'
    } else {
        '9'
    }
}

/// Appends the decimal form of `n`.
fn append_u32(out: &mut String, n: u32)
    ensures
        final(out)@ == old(out)@ + ser_u32(n),
    decreases n,
{
    if n < 10 {
        push_char(out, digit_char_x(n));
        proof {
            assert(final(out)@ =~= old(out)@ + ser_u32(n));
        }
    } else {
        append_u32(out, n / 10);
        push_char(out, digit_char_x(n % 10));
        proof {
            assert(final(out)@ =~= old(out)@ + ser_u32(n));
        }
    }
}

/// Appends the written form of one string character.
fn push_escaped_char(out: &mut String, c: char)
    ensures
        final(out)@ == old(out)@ + esc_char(c),
{
    if c == '"' {
        push_char(out, '\\');
        push_char(out, '"');
    } else if c == '\\' {
        push_char(out, '\\');
        push_char(out, '\\');
    } else if c == '\n' {
        push_char(out, '\\');
        push_char(out, 'n');
    } else if c == '\t' {
        push_char(out, '\\');
        push_char(out, 't');
    } else if c == '\r' {
        push_char(out, '\\');
        push_char(out, 'r');
    } else {
        push_char(out, c);
    }
    proof {
        assert(final(out)@ =~= old(out)@ + esc_char(c));
    }
}

/// Appends a string in its quoted, escaped wire form.
fn append_json_str(out: &mut String, s: &str)
    ensures
        final(out)@ == old(out)@ + json_str(s@),
{
    push_char(out, '"');
    let n = s.unicode_len();
    let mut i: usize = 0;
    while i < n
        invariant
            n == s@.len(),
            i <= n,
            out@ == old(out)@.push('"') + escape(s@.take(i as int)),
        decreases n - i,
    {
        let c = s.get_char(i);
        push_escaped_char(out, c);
        proof {
            assert(s@.take(i + 1).drop_last() =~= s@.take(i as int));
            assert(out@ =~= old(out)@.push('"') + escape(s@.take(i + 1)));
        }
        i += 1;
    }
    push_char(out, '"');
    proof {
        assert(s@.take(n as int) =~= s@);
        assert(final(out)@ =~= old(out)@ + json_str(s@));
    }
}

/// Appends the canonical form of a string array.
fn append_str_arr(out: &mut String, v: &Vec<String>)
    ensures
        final(out)@ == old(out)@ + spec_encode_arr(v.deep_view()),
{
    push_char(out, '[');
    let n = v.len();
    let mut i: usize = 0;
    while i < n
        invariant
            n == v.len(),
            i <= n,
            out@ == old(out)@.push('[') + arr_elems(v.deep_view().take(i as int)),
        decreases n - i,
    {
        if i > 0 {
            push_char(out, ',');
        }
        append_json_str(out, v[i].as_str());
        proof {
            assert(v.deep_view().take(i + 1).drop_last() =~= v.deep_view().take(i as int));
            assert(v.deep_view().take(i + 1).last() == v.deep_view()[i as int]);
            assert(v.deep_view()[i as int] == v@[i as int]@);
            assert(out@ =~= old(out)@.push('[') + arr_elems(v.deep_view().take(i + 1)));
        }
        i += 1;
    }
    push_char(out, ']');
    proof {
        assert(v.deep_view().take(n as int) =~= v.deep_view());
        assert(final(out)@ =~= old(out)@ + spec_encode_arr(v.deep_view()));
    }
}

/// Appends the canonical form of a body.
fn append_body(out: &mut String, body: &MessageBody)
    ensures
        final(out)@ == old(out)@ + spec_encode_body(body@),
{
    match body {
        MessageBody::Init(m) => {
            out.append("{\"type\":\"init\",\"msg_id\":");
            append_u32(out, m.msg_id);
            out.append(",\"node_id\":");
            append_json_str(out, m.node_id.as_str());
            out.append(",\"node_ids\":");
            append_str_arr(out, &m.node_ids);
            out.append("}");
            proof {
                assert(final(out)@ =~= old(out)@ + spec_encode_body(body@));
            }
        },
        MessageBody::Topology(m) => {
            out.append("{\"type\":\"topology\",\"msg_id\":");
            append_u32(out, m.msg_id);
            out.append(",\"topology\":");
            append_str_arr(out, &m.topology);
            out.append("}");
            proof {
                assert(final(out)@ =~= old(out)@ + spec_encode_body(body@));
            }
        },
        MessageBody::Error(m) => {
            out.append("{\"type\":\"error\",\"in_reply_to\":");
            append_u32(out, m.in_reply_to);
            out.append(",\"code\":");
            append_u32(out, m.code.to_code());
            out.append(",\"text\":");
            append_json_str(out, m.text.as_str());
            out.append("}");
            proof {
                assert(final(out)@ =~= old(out)@ + spec_encode_body(body@));
            }
        },
        MessageBody::Unknown => {
            out.append("{\"type\":\"unknown\"}");
            proof {
                assert(final(out)@ =~= old(out)@ + spec_encode_body(body@));
            }
        },
    }
}

// ---------------------------------------------------------------------------
// The parser
// ---------------------------------------------------------------------------

/// A string-valued field slot.
enum SlotStr {
    Absent,
    Val(String),
    Bad,
}

impl View for SlotStr {
    type V = SlotV<Seq<char>>;

    closed spec fn view(&self) -> SlotV<Seq<char>> {
        match self {
            SlotStr::Absent => SlotV::Absent,
            SlotStr::Val(s) => SlotV::Val(s@),
            SlotStr::Bad => SlotV::Bad,
        }
    }
}

/// A number-valued field slot.
enum SlotNum {
    Absent,
    Val(u32),
    Bad,
}

impl View for SlotNum {
    type V = SlotV<u32>;

    closed spec fn view(&self) -> SlotV<u32> {
        match self {
            SlotNum::Absent => SlotV::Absent,
            SlotNum::Val(n) => SlotV::Val(*n),
            SlotNum::Bad => SlotV::Bad,
        }
    }
}

/// A string-list-valued field slot.
enum SlotList {
    Absent,
    Val(Vec<String>),
    Bad,
}

impl View for SlotList {
    type V = SlotV<Seq<Seq<char>>>;

    closed spec fn view(&self) -> SlotV<Seq<Seq<char>>> {
        match self {
            SlotList::Absent => SlotV::Absent,
            SlotList::Val(v) => SlotV::Val(v.deep_view()),
            SlotList::Bad => SlotV::Bad,
        }
    }
}

/// The collected members of a body object.
struct BodySlots {
    tag: SlotStr,
    msg_id: SlotNum,
    node_id: SlotStr,
    node_ids: SlotList,
    topology: SlotList,
    in_reply_to: SlotNum,
    code: SlotNum,
    text: SlotStr,
}

impl View for BodySlots {
    type V = BodySlotsV;

    closed spec fn view(&self) -> BodySlotsV {
        BodySlotsV {
            tag: self.tag@,
            msg_id: self.msg_id@,
            node_id: self.node_id@,
            node_ids: self.node_ids@,
            topology: self.topology@,
            in_reply_to: self.in_reply_to@,
            code: self.code@,
            text: self.text@,
        }
    }
}

/// The collected members of an envelope object.
struct EnvSlots {
    src: Option<String>,
    dest: Option<String>,
    body: Option<MessageBody>,
}

impl View for EnvSlots {
    type V = EnvSlotsV;

    closed spec fn view(&self) -> EnvSlotsV {
        EnvSlotsV {
            src: match &self.src {
                Some(s) => Some(s@),
                None => None,
            },
            dest: match &self.dest {
                Some(s) => Some(s@),
                None => None,
            },
            body: match &self.body {
                Some(b) => Some(b@),
                None => None,
            },
        }
    }
}

/// Skips past one whole value; mirrors [`spec_skip_value`].
fn skip_value(ts: &Vec<Token>, k: usize) -> (r: Option<usize>)
    ensures
        match spec_skip_value(toks_view(ts@), k as int) {
            Some(j) => r matches Some(j2) && j2 as int == j && k < j <= ts@.len(),
            None => r is None,
        },
{
    if k >= ts.len() {
        return None;
    }
    match &ts[k] {
        Token::StrTok(_) => Some(k + 1),
        Token::NumTok(_) => Some(k + 1),
        Token::NumBig => Some(k + 1),
        Token::Word => Some(k + 1),
        Token::LBrace => skip_until(ts, k + 1, 1),
        Token::LBrack => skip_until(ts, k + 1, 1),
        _ => None,
    }
}

/// Skips until the open nesting closes; mirrors [`spec_skip_until`].
fn skip_until(ts: &Vec<Token>, k: usize, depth: usize) -> (r: Option<usize>)
    requires
        depth as int <= k,
        1 <= depth,
    ensures
        match spec_skip_until(toks_view(ts@), k as int, depth as int) {
            Some(j) => r matches Some(j2) && j2 as int == j && k < j <= ts@.len(),
            None => r is None,
        },
    decreases ts.len() - k,
{
    if k >= ts.len() {
        return None;
    }
    match &ts[k] {
        Token::LBrace => skip_until(ts, k + 1, depth + 1),
        Token::LBrack => skip_until(ts, k + 1, depth + 1),
        Token::RBrace => {
            if depth == 1 {
                Some(k + 1)
            } else {
                skip_until(ts, k + 1, depth - 1)
            }
        },
        Token::RBrack => {
            if depth == 1 {
                Some(k + 1)
            } else {
                skip_until(ts, k + 1, depth - 1)
            }
        },
        _ => skip_until(ts, k + 1, depth),
    }
}

/// Reads a string value; mirrors [`spec_read_str`].
fn read_str_slot(ts: &Vec<Token>, v: usize) -> (r: SlotStr)
    ensures
        r@ == spec_read_str(toks_view(ts@), v as int),
{
    if v < ts.len() {
        match &ts[v] {
            Token::StrTok(s) => SlotStr::Val(s.clone()),
            _ => SlotStr::Bad,
        }
    } else {
        SlotStr::Bad
    }
}

/// Reads a number value; mirrors [`spec_read_num`].
fn read_num_slot(ts: &Vec<Token>, v: usize) -> (r: SlotNum)
    ensures
        r@ == spec_read_num(toks_view(ts@), v as int),
{
    if v < ts.len() {
        match &ts[v] {
            Token::NumTok(n) => SlotNum::Val(*n),
            _ => SlotNum::Bad,
        }
    } else {
        SlotNum::Bad
    }
}

/// Reads the elements of a string array into `out`; mirrors
/// [`spec_read_elems`].
fn read_elems(ts: &Vec<Token>, k: usize, out: &mut Vec<String>) -> (ok: bool)
    ensures
        match spec_read_elems(toks_view(ts@), k as int) {
            Some(ss) => ok && final(out).deep_view() == old(out).deep_view() + ss,
            None => !ok,
        },
    decreases ts.len() - k,
{
    if k >= ts.len() {
        return false;
    }
    match &ts[k] {
        Token::RBrack => {
            proof {
                assert(out.deep_view() + Seq::<Seq<char>>::empty() =~= out.deep_view());
            }
            true
        },
        Token::StrTok(s) => {
            if k + 1 < ts.len() {
                if matches!(&ts[k + 1], Token::RBrack) {
                    let ghost pre = out.deep_view();
                    out.push(s.clone());
                    proof {
                        assert(out.deep_view() =~= pre + seq![s@]);
                    }
                    true
                } else if matches!(&ts[k + 1], Token::Comma) {
                    let ghost pre = out.deep_view();
                    out.push(s.clone());
                    proof {
                        assert(out.deep_view() =~= pre + seq![s@]);
                    }
                    let ghost mid = out.deep_view();
                    let ok = read_elems(ts, k + 2, out);
                    proof {
                        match spec_read_elems(toks_view(ts@), k + 2) {
                            Some(r2) => {
                                assert((pre + seq![s@]) + r2 =~= pre + (seq![s@] + r2));
                            },
                            None => {},
                        }
                    }
                    ok
                } else {
                    false
                }
            } else {
                false
            }
        },
        _ => false,
    }
}

/// Reads a string-list value; mirrors [`spec_read_list`].
fn read_list_slot(ts: &Vec<Token>, v: usize) -> (r: SlotList)
    ensures
        r@ == spec_read_list(toks_view(ts@), v as int),
{
    if v < ts.len() && matches!(&ts[v], Token::LBrack) {
        let mut out: Vec<String> = Vec::new();
        let ok = read_elems(ts, v + 1, &mut out);
        if ok {
            proof {
                match spec_read_elems(toks_view(ts@), v + 1) {
                    Some(ss) => {
                        assert(Seq::<Seq<char>>::empty() + ss =~= ss);
                        assert(out.deep_view() =~= ss);
                    },
                    None => {},
                }
            }
            SlotList::Val(out)
        } else {
            SlotList::Bad
        }
    } else {
        SlotList::Bad
    }
}

/// Files a value into the slot its key names; mirrors
/// [`spec_body_slot_update`].
fn body_slot_update(acc: BodySlots, key: &String, ts: &Vec<Token>, v: usize) -> (r: BodySlots)
    ensures
        r@ == spec_body_slot_update(acc@, key@, toks_view(ts@), v as int),
{
    if str_eq(key.as_str(), "type") {
        BodySlots { tag: read_str_slot(ts, v), ..acc }
    } else if str_eq(key.as_str(), "msg_id") {
        BodySlots { msg_id: read_num_slot(ts, v), ..acc }
    } else if str_eq(key.as_str(), "node_id") {
        BodySlots { node_id: read_str_slot(ts, v), ..acc }
    } else if str_eq(key.as_str(), "node_ids") {
        BodySlots { node_ids: read_list_slot(ts, v), ..acc }
    } else if str_eq(key.as_str(), "topology") {
        BodySlots { topology: read_list_slot(ts, v), ..acc }
    } else if str_eq(key.as_str(), "in_reply_to") {
        BodySlots { in_reply_to: read_num_slot(ts, v), ..acc }
    } else if str_eq(key.as_str(), "code") {
        BodySlots { code: read_num_slot(ts, v), ..acc }
    } else if str_eq(key.as_str(), "text") {
        BodySlots { text: read_str_slot(ts, v), ..acc }
    } else {
        acc
    }
}

/// Collects the members of a body object; mirrors
/// [`spec_parse_body_members`].
fn parse_body_members(ts: &Vec<Token>, k: usize, acc: BodySlots, first: bool) -> (r: Result<
    (BodySlots, usize),
    DecodeError,
>)
    ensures
        match r {
            Ok(p) => spec_parse_body_members(toks_view(ts@), k as int, acc@, first) matches Ok(q)
                && q.0 == p.0@ && q.1 == p.1 as int && k < p.1 <= ts@.len(),
            Err(e) => spec_parse_body_members(toks_view(ts@), k as int, acc@, first) == Err::<
                (BodySlotsV, int),
                DecodeError,
            >(e),
        },
    decreases ts.len() - k,
{
    if k >= ts.len() {
        return Err(DecodeError::Syntax);
    }
    if first && matches!(&ts[k], Token::RBrace) {
        return Ok((acc, k + 1));
    }
    match &ts[k] {
        Token::StrTok(key) => {
            if k + 1 < ts.len() && matches!(&ts[k + 1], Token::Colon) {
                match skip_value(ts, k + 2) {
                    Some(j) => {
                        let acc2 = body_slot_update(acc, key, ts, k + 2);
                        if j < ts.len() {
                            if matches!(&ts[j], Token::Comma) {
                                parse_body_members(ts, j + 1, acc2, false)
                            } else if matches!(&ts[j], Token::RBrace) {
                                Ok((acc2, j + 1))
                            } else {
                                Err(DecodeError::Syntax)
                            }
                        } else {
                            Err(DecodeError::Syntax)
                        }
                    },
                    None => Err(DecodeError::Syntax),
                }
            } else {
                Err(DecodeError::Syntax)
            }
        },
        _ => Err(DecodeError::Syntax),
    }
}

/// Builds the typed body from collected members; mirrors
/// [`spec_interp_body`].
fn interp_body(sl: BodySlots) -> (r: Result<MessageBody, DecodeError>)
    ensures
        match r {
            Ok(b) => spec_interp_body(sl@) == Ok::<BodyV, DecodeError>(b@),
            Err(e) => spec_interp_body(sl@) == Err::<BodyV, DecodeError>(e),
        },
{
    let BodySlots { tag, msg_id, node_id, node_ids, topology, in_reply_to, code, text } = sl;
    match tag {
        SlotStr::Absent => Err(DecodeError::Missing(FieldPath::BodyType)),
        SlotStr::Bad => Err(DecodeError::Invalid(FieldPath::BodyType)),
        SlotStr::Val(t) => {
            if str_eq(t.as_str(), "init") {
                match msg_id {
                    SlotNum::Absent => Err(DecodeError::Missing(FieldPath::BodyMsgId)),
                    SlotNum::Bad => Err(DecodeError::Invalid(FieldPath::BodyMsgId)),
                    SlotNum::Val(m) => match node_id {
                        SlotStr::Absent => Err(DecodeError::Missing(FieldPath::BodyNodeId)),
                        SlotStr::Bad => Err(DecodeError::Invalid(FieldPath::BodyNodeId)),
                        SlotStr::Val(nid) => match node_ids {
                            SlotList::Absent => Err(DecodeError::Missing(FieldPath::BodyNodeIds)),
                            SlotList::Bad => Err(DecodeError::Invalid(FieldPath::BodyNodeIds)),
                            SlotList::Val(nids) => Ok(
                                MessageBody::Init(
                                    InitMessage { msg_id: m, node_id: nid, node_ids: nids },
                                ),
                            ),
                        },
                    },
                }
            } else if str_eq(t.as_str(), "topology") {
                match msg_id {
                    SlotNum::Absent => Err(DecodeError::Missing(FieldPath::BodyMsgId)),
                    SlotNum::Bad => Err(DecodeError::Invalid(FieldPath::BodyMsgId)),
                    SlotNum::Val(m) => match topology {
                        SlotList::Absent => Err(DecodeError::Missing(FieldPath::BodyTopology)),
                        SlotList::Bad => Err(DecodeError::Invalid(FieldPath::BodyTopology)),
                        SlotList::Val(tp) => Ok(
                            MessageBody::Topology(TopologyMessage { msg_id: m, topology: tp }),
                        ),
                    },
                }
            } else if str_eq(t.as_str(), "error") {
                match in_reply_to {
                    SlotNum::Absent => Err(DecodeError::Missing(FieldPath::BodyInReplyTo)),
                    SlotNum::Bad => Err(DecodeError::Invalid(FieldPath::BodyInReplyTo)),
                    SlotNum::Val(irt) => match code {
                        SlotNum::Absent => Err(DecodeError::Missing(FieldPath::BodyCode)),
                        SlotNum::Bad => Err(DecodeError::Invalid(FieldPath::BodyCode)),
                        SlotNum::Val(c) => match crate::message::MaelstromError::from_code(c) {
                            None => Err(DecodeError::UnknownErrorCode),
                            Some(ec) => match text {
                                SlotStr::Absent => Err(DecodeError::Missing(FieldPath::BodyText)),
                                SlotStr::Bad => Err(DecodeError::Invalid(FieldPath::BodyText)),
                                SlotStr::Val(tx) => Ok(
                                    MessageBody::Error(
                                        ErrorMessage { in_reply_to: irt, code: ec, text: tx },
                                    ),
                                ),
                            },
                        },
                    },
                }
            } else {
                Ok(MessageBody::Unknown)
            }
        },
    }
}

/// Collects the members of an envelope object; mirrors
/// [`spec_parse_env_members`].
#[verifier::rlimit(60)]
fn parse_env_members(ts: &Vec<Token>, k: usize, acc: EnvSlots, first: bool) -> (r: Result<
    (EnvSlots, usize),
    DecodeError,
>)
    ensures
        match r {
            Ok(p) => spec_parse_env_members(toks_view(ts@), k as int, acc@, first) matches Ok(q)
                && q.0 == p.0@ && q.1 == p.1 as int && k < p.1 <= ts@.len(),
            Err(e) => spec_parse_env_members(toks_view(ts@), k as int, acc@, first) == Err::<
                (EnvSlotsV, int),
                DecodeError,
            >(e),
        },
    decreases ts.len() - k, 0int,
{
    if k >= ts.len() {
        return Err(DecodeError::Syntax);
    }
    if first && matches!(&ts[k], Token::RBrace) {
        return Ok((acc, k + 1));
    }
    match &ts[k] {
        Token::StrTok(key) => {
            if k + 1 < ts.len() && matches!(&ts[k + 1], Token::Colon) {
                if str_eq(key.as_str(), "src") {
                    if k + 2 < ts.len() {
                        match &ts[k + 2] {
                            Token::StrTok(v) => {
                                let acc2 = EnvSlots { src: Some(v.clone()), ..acc };
                                env_after_value(ts, k + 3, acc2)
                            },
                            _ => Err(DecodeError::Invalid(FieldPath::Src)),
                        }
                    } else {
                        Err(DecodeError::Syntax)
                    }
                } else if str_eq(key.as_str(), "dest") {
                    if k + 2 < ts.len() {
                        match &ts[k + 2] {
                            Token::StrTok(v) => {
                                let acc2 = EnvSlots { dest: Some(v.clone()), ..acc };
                                env_after_value(ts, k + 3, acc2)
                            },
                            _ => Err(DecodeError::Invalid(FieldPath::Dest)),
                        }
                    } else {
                        Err(DecodeError::Syntax)
                    }
                } else if str_eq(key.as_str(), "body") {
                    if k + 2 < ts.len() && matches!(&ts[k + 2], Token::LBrace) {
                        let bs = BodySlots {
                            tag: SlotStr::Absent,
                            msg_id: SlotNum::Absent,
                            node_id: SlotStr::Absent,
                            node_ids: SlotList::Absent,
                            topology: SlotList::Absent,
                            in_reply_to: SlotNum::Absent,
                            code: SlotNum::Absent,
                            text: SlotStr::Absent,
                        };
                        match parse_body_members(ts, k + 3, bs, true) {
                            Err(e) => Err(e),
                            Ok((bsl, j)) => {
                                match interp_body(bsl) {
                                    Err(e) => Err(e),
                                    Ok(bv) => {
                                        let acc2 = EnvSlots { body: Some(bv), ..acc };
                                        env_after_value(ts, j, acc2)
                                    },
                                }
                            },
                        }
                    } else if k + 2 < ts.len() {
                        Err(DecodeError::Invalid(FieldPath::Body))
                    } else {
                        Err(DecodeError::Syntax)
                    }
                } else {
                    match skip_value(ts, k + 2) {
                        Some(j) => env_after_value(ts, j, acc),
                        None => Err(DecodeError::Syntax),
                    }
                }
            } else {
                Err(DecodeError::Syntax)
            }
        },
        _ => Err(DecodeError::Syntax),
    }
}

/// Handles the separator after an envelope member's value; mirrors
/// [`spec_env_after_value`].
fn env_after_value(ts: &Vec<Token>, j: usize, acc: EnvSlots) -> (r: Result<
    (EnvSlots, usize),
    DecodeError,
>)
    ensures
        match r {
            Ok(p) => spec_env_after_value(toks_view(ts@), j as int, acc@) matches Ok(q) && q.0
                == p.0@ && q.1 == p.1 as int && j < p.1 <= ts@.len(),
            Err(e) => spec_env_after_value(toks_view(ts@), j as int, acc@) == Err::<
                (EnvSlotsV, int),
                DecodeError,
            >(e),
        },
    decreases ts.len() - j, 1int,
{
    if j < ts.len() {
        if matches!(&ts[j], Token::Comma) {
            parse_env_members(ts, j + 1, acc, false)
        } else if matches!(&ts[j], Token::RBrace) {
            Ok((acc, j + 1))
        } else {
            Err(DecodeError::Syntax)
        }
    } else {
        Err(DecodeError::Syntax)
    }
}

/// Parses a token run as one envelope; mirrors [`spec_parse_message`].
fn parse_message(ts: &Vec<Token>) -> (r: Result<Message, DecodeError>)
    ensures
        match r {
            Ok(m) => spec_parse_message(toks_view(ts@)) == Ok::<MessageV, DecodeError>(m@),
            Err(e) => spec_parse_message(toks_view(ts@)) == Err::<MessageV, DecodeError>(e),
        },
{
    if ts.len() == 0 || !matches!(&ts[0], Token::LBrace) {
        return Err(DecodeError::Syntax);
    }
    let es = EnvSlots { src: None, dest: None, body: None };
    match parse_env_members(ts, 1, es, true) {
        Err(e) => Err(e),
        Ok((sl, j)) => {
            if j < ts.len() {
                return Err(DecodeError::Trailing);
            }
            match sl.src {
                None => Err(DecodeError::Missing(FieldPath::Src)),
                Some(src) => match sl.dest {
                    None => Err(DecodeError::Missing(FieldPath::Dest)),
                    Some(dest) => match sl.body {
                        None => Err(DecodeError::Missing(FieldPath::Body)),
                        Some(b) => Ok(Message { src, dest, body: b }),
                    },
                },
            }
        },
    }
}

/// Decodes one input line as an envelope: strict on the envelope shape,
/// permissive inside the body (unknown members are ignored and an
/// unrecognized tag gives an `Unknown` body). The result, success or
/// failure, is exactly what [`spec_decode`] assigns to the line.
pub fn decode(line: &str) -> (r: Result<Message, DecodeError>)
    ensures
        match r {
            Ok(m) => spec_decode(line@) == Ok::<MessageV, DecodeError>(m@),
            Err(e) => spec_decode(line@) == Err::<MessageV, DecodeError>(e),
        },
{
    match tokenize(line) {
        None => Err(DecodeError::Syntax),
        Some(ts) => parse_message(&ts),
    }
}

/// Decodes one body object on its own, by the same grammar the envelope's
/// `body` member uses.
pub fn decode_body(text: &str) -> (r: Result<MessageBody, DecodeError>)
    ensures
        match r {
            Ok(b) => spec_decode_body(text@) == Ok::<BodyV, DecodeError>(b@),
            Err(e) => spec_decode_body(text@) == Err::<BodyV, DecodeError>(e),
        },
{
    match tokenize(text) {
        None => Err(DecodeError::Syntax),
        Some(ts) => {
            if ts.len() == 0 || !matches!(&ts[0], Token::LBrace) {
                return Err(DecodeError::Syntax);
            }
            let bs = BodySlots {
                tag: SlotStr::Absent,
                msg_id: SlotNum::Absent,
                node_id: SlotStr::Absent,
                node_ids: SlotList::Absent,
                topology: SlotList::Absent,
                in_reply_to: SlotNum::Absent,
                code: SlotNum::Absent,
                text: SlotStr::Absent,
            };
            match parse_body_members(&ts, 1, bs, true) {
                Err(e) => Err(e),
                Ok((sl, j)) => {
                    if j < ts.len() {
                        return Err(DecodeError::Trailing);
                    }
                    interp_body(sl)
                },
            }
        },
    }
}

/// Unknown tolerance: whatever else a body object held, a tag outside the
/// known set makes it decode to `Unknown` rather than fail.
pub proof fn lemma_unknown_tag_tolerated(sl: BodySlotsV, t: Seq<char>)
    requires
        sl.tag == SlotV::Val(t),
        t != "init"@,
        t != "topology"@,
        t != "error"@,
    ensures
        spec_interp_body(sl) == Ok::<BodyV, DecodeError>(BodyV::Unknown),
{
}

/// Closed error codes: an `error` body whose numeric code lies outside the
/// closed set fails to decode, with the field path naming `body.code`.
pub proof fn lemma_closed_error_codes(sl: BodySlotsV, c: u32)
    requires
        sl.tag == SlotV::Val("error"@),
        sl.in_reply_to is Val,
        sl.code == SlotV::Val(c),
        spec_from_code(c) is None,
    ensures
        spec_interp_body(sl) == Err::<BodyV, DecodeError>(DecodeError::UnknownErrorCode),
        spec_path(DecodeError::UnknownErrorCode) == "body.code"@,
{
    lemma_known_tags_distinct();
}

/// The three known tags are pairwise distinct words.
pub proof fn lemma_known_tags_distinct()
    ensures
        "error"@ != "init"@,
        "error"@ != "topology"@,
        "init"@ != "topology"@,
        "unknown"@ != "init"@,
        "unknown"@ != "topology"@,
        "unknown"@ != "error"@,
{
    reveal_strlit("error");
    reveal_strlit("init");
    reveal_strlit("topology");
    reveal_strlit("unknown");
    assert("error"@.len() == 5);
    assert("init"@.len() == 4);
    assert("topology"@.len() == 8);
    assert("unknown"@.len() == 7);
}

/// Encodes an envelope in its canonical wire form. Encoding never fails:
/// every representable envelope has a canonical line.
pub fn encode(msg: &Message) -> (r: String)
    ensures
        r@ == spec_encode_msg(msg@),
{
    let mut out = String::new();
    out.append("{\"src\":");
    append_json_str(&mut out, msg.src.as_str());
    out.append(",\"dest\":");
    append_json_str(&mut out, msg.dest.as_str());
    out.append(",\"body\":");
    append_body(&mut out, &msg.body);
    out.append("}");
    proof {
        assert(out@ =~= spec_encode_msg(msg@));
    }
    out
}

/// Encodes a reply envelope in its canonical wire form.
pub fn encode_response(msg: &ResponseMessage) -> (r: String)
    ensures
        r@ == spec_encode_resp(msg@),
{
    let mut out = String::new();
    out.append("{\"src\":");
    append_json_str(&mut out, msg.src.as_str());
    out.append(",\"dest\":");
    append_json_str(&mut out, msg.dest.as_str());
    out.append(",\"body\":");
    match &msg.body {
        ResponseBody::InitOk(x) => {
            out.append("{\"type\":\"init_ok\",\"in_reply_to\":");
            append_u32(&mut out, x.in_reply_to);
            out.append(",\"msg_id\":");
            append_u32(&mut out, x.msg_id);
            out.append("}");
        },
        ResponseBody::TopologyOk(x) => {
            out.append("{\"type\":\"topology_ok\",\"msg_id\":");
            append_u32(&mut out, x.msg_id);
            out.append(",\"in_reply_to\":");
            append_u32(&mut out, x.in_reply_to);
            out.append("}");
        },
    }
    out.append("}");
    proof {
        assert(out@ =~= spec_encode_resp(msg@));
    }
    out
}

// ---------------------------------------------------------------------------
// Round trip: the canonical line lexes back to the canonical tokens
// ---------------------------------------------------------------------------

/// The characters one token contributes to the canonical line.
pub open spec fn render_tok(t: Tok) -> Seq<char> {
    match t {
        Tok::LBrace => seq!['{'],
        Tok::RBrace => seq!['}'],
        Tok::LBrack => seq!['['],
        Tok::RBrack => seq![']'],
        Tok::Colon => seq![':'],
        Tok::Comma => seq![','],
        Tok::StrTok(s) => json_str(s),
        Tok::NumTok(n) => ser_u32(n),
        Tok::NumBig => Seq::empty(),
        Tok::Word => Seq::empty(),
    }
}

/// The characters a token run contributes to the canonical line.
pub open spec fn render_toks(ts: Seq<Tok>) -> Seq<char>
    decreases ts.len(),
{
    if ts.len() == 0 {
        Seq::empty()
    } else {
        render_tok(ts[0]) + render_toks(ts.drop_first())
    }
}

/// Tokens that the encoder emits: no bare words, no malformed numbers.
pub open spec fn canonical_tok(t: Tok) -> bool {
    !(t is NumBig) && !(t is Word)
}

/// Tokens that may follow a number on a canonical line.
pub open spec fn num_sep(t: Tok) -> bool {
    t is Comma || t is RBrace || t is RBrack
}

/// A token run the encoder could have emitted: canonical tokens, each number
/// followed by a separator.
pub open spec fn wf_toks(ts: Seq<Tok>) -> bool {
    &&& forall|k: int| 0 <= k < ts.len() ==> canonical_tok(ts[k])
    &&& forall|k: int| 0 <= k < ts.len() - 1 && (#[trigger] ts[k]) is NumTok ==> num_sep(ts[k + 1])
}

/// Splits knowledge about a suffix made of two parts.
proof fn lemma_split_at(full: Seq<char>, i: int, a: Seq<char>, b: Seq<char>)
    requires
        0 <= i <= full.len(),
        full.subrange(i, full.len() as int) == a + b,
    ensures
        i + a.len() + b.len() == full.len(),
        full.subrange(i + a.len(), full.len() as int) == b,
        forall|k: int| 0 <= k < a.len() ==> full[i + k] == a[k],
{
    assert(full.subrange(i, full.len() as int).len() == full.len() - i);
    assert(i + a.len() + b.len() == full.len());
    assert forall|k: int| 0 <= k < a.len() implies full[i + k] == a[k] by {
        assert(full.subrange(i, full.len() as int)[k] == (a + b)[k]);
        assert(full.subrange(i, full.len() as int)[k] == full[i + k]);
        assert((a + b)[k] == a[k]);
    }
    assert forall|k: int|
        0 <= k < b.len() implies full.subrange(i + a.len(), full.len() as int)[k] == b[k] by {
        assert(full.subrange(i, full.len() as int)[a.len() + k] == (a + b)[a.len() + k]);
        assert(full.subrange(i, full.len() as int)[a.len() + k] == full[i + a.len() + k]);
        assert((a + b)[a.len() + k] == b[k]);
        assert(full.subrange(i + a.len(), full.len() as int)[k] == full[i + a.len() + k]);
    }
    assert(full.subrange(i + a.len(), full.len() as int) =~= b);
}

/// Escaping a nonempty string starts with its first character's form.
proof fn lemma_escape_front(s: Seq<char>)
    requires
        s.len() > 0,
    ensures
        escape(s) == esc_char(s[0]) + escape(s.drop_first()),
    decreases s.len(),
{
    if s.len() == 1 {
        assert(s.drop_last() =~= Seq::<char>::empty());
        assert(s.drop_first() =~= Seq::<char>::empty());
        assert(escape(s) =~= esc_char(s[0]) + escape(s.drop_first()));
    } else {
        let d = s.drop_last();
        lemma_escape_front(d);
        assert(d[0] == s[0]);
        assert(s.drop_first().drop_last() =~= d.drop_first());
        assert(s.drop_first().last() == s.last());
        assert(escape(s) =~= esc_char(s[0]) + escape(s.drop_first()));
    }
}

/// Scanning an escaped string followed by its closing quote yields the
/// string back and stops just past the quote.
proof fn lemma_scan_escaped(full: Seq<char>, i: int, s: Seq<char>)
    requires
        0 <= i,
        i + escape(s).len() < full.len(),
        forall|k: int| 0 <= k < escape(s).len() ==> full[i + k] == escape(s)[k],
        full[i + escape(s).len()] == '"',
    ensures
        spec_scan_str(full, i) == Some((s, i + escape(s).len() + 1)),
    decreases s.len(),
{
    if s.len() == 0 {
        assert(escape(s).len() == 0);
        assert(full[i] == '"');
    } else {
        let c = s[0];
        let rest = s.drop_first();
        lemma_escape_front(s);
        let ec = esc_char(c);
        assert(escape(s) == ec + escape(rest));
        assert forall|k: int| 0 <= k < escape(rest).len() implies full[i + ec.len() + k] == escape(
            rest,
        )[k] by {
            assert(escape(s)[ec.len() + k] == escape(rest)[k]);
        }
        assert(escape(s).len() == ec.len() + escape(rest).len());
        assert(escape(s)[0] == ec[0]);
        assert(full[i + 0] == escape(s)[0]);
        if c == '"' || c == '\\' || c == '\n' || c == '\t' || c == '\r' {
            assert(ec.len() == 2);
            assert(ec[0] == '\\');
            assert(full[i] == '\\');
            assert(escape(s)[1] == ec[1]);
            assert(full[i + 1] == escape(s)[1]);
            assert(full[i + 1] == ec[1]);
            assert(unescape_char(ec[1]) == Some(c));
            lemma_scan_escaped(full, i + 2, rest);
            assert(seq![c] + rest =~= s);
        } else {
            assert(ec.len() == 1);
            assert(ec[0] == c);
            assert(full[i] == c);
            lemma_scan_escaped(full, i + 1, rest);
            assert(seq![c] + rest =~= s);
        }
    }
}

/// The decimal form of a number is a nonempty digit run whose value is the
/// number itself.
proof fn lemma_ser_u32_digits(n: u32)
    ensures
        ser_u32(n).len() >= 1,
        forall|k: int| 0 <= k < ser_u32(n).len() ==> is_digit_char(ser_u32(n)[k]),
        digits_val(ser_u32(n)) == n,
    decreases n,
{
    if n < 10 {
        assert(ser_u32(n) == seq![digit_char(n)]);
        assert(seq![digit_char(n)].drop_last() =~= Seq::<char>::empty());
        assert(seq![digit_char(n)].last() == digit_char(n));
        assert(digits_val(Seq::<char>::empty()) == 0);
        assert(digit_val(digit_char(n)) == n);
        assert(digits_val(ser_u32(n)) == n);
    } else {
        lemma_ser_u32_digits(n / 10);
        let pre = ser_u32(n / 10);
        assert(pre.push(digit_char(n % 10)).drop_last() =~= pre);
        assert(pre.push(digit_char(n % 10)).last() == digit_char(n % 10));
        assert(digit_val(digit_char(n % 10)) == n % 10);
        assert(digits_val(ser_u32(n)) == n);
        assert forall|k: int| 0 <= k < ser_u32(n).len() implies is_digit_char(ser_u32(n)[k]) by {
            if k < pre.len() {
                assert(ser_u32(n)[k] == pre[k]);
            } else {
                assert(ser_u32(n)[k] == digit_char(n % 10));
            }
        }
    }
}

/// Scanning a maximal digit run gives exactly that run.
proof fn lemma_scan_digits_run(full: Seq<char>, i: int, ds: Seq<char>)
    requires
        0 <= i,
        i + ds.len() <= full.len(),
        ds.len() >= 1,
        forall|k: int| 0 <= k < ds.len() ==> full[i + k] == ds[k] && is_digit_char(ds[k]),
        i + ds.len() == full.len() || !is_digit_char(full[i + ds.len()]),
    ensures
        spec_scan_digits(full, i) == ds,
    decreases ds.len(),
{
    assert(full[i] == ds[0]);
    if ds.len() == 1 {
        assert(spec_scan_digits(full, i + 1) =~= Seq::<char>::empty());
        assert(spec_scan_digits(full, i) =~= ds);
    } else {
        let rest = ds.drop_first();
        assert forall|k: int| 0 <= k < rest.len() implies full[i + 1 + k] == rest[k]
            && is_digit_char(rest[k]) by {
            assert(rest[k] == ds[k + 1]);
        }
        lemma_scan_digits_run(full, i + 1, rest);
        assert(seq![ds[0]] + rest =~= ds);
    }
}

/// Lexing a number written in canonical decimal form, with no digit,
/// decimal point or exponent letter right after it, gives the number back.
proof fn lemma_lex_num_plain(full: Seq<char>, i: int, n: u32)
    requires
        0 <= i,
        i + ser_u32(n).len() <= full.len(),
        forall|k: int| 0 <= k < ser_u32(n).len() ==> full[i + k] == ser_u32(n)[k],
        i + ser_u32(n).len() < full.len() ==> !is_digit_char(full[i + ser_u32(n).len()]) && full[i
            + ser_u32(n).len()] != '.' && full[i + ser_u32(n).len()] != 'e' && full[i + ser_u32(
            n,
        ).len()] != 'E',
    ensures
        spec_lex_num(full, i) == Some((Tok::NumTok(n), i + ser_u32(n).len())),
{
    lemma_ser_u32_digits(n);
    lemma_scan_digits_run(full, i, ser_u32(n));
    assert(full[i] == ser_u32(n)[0]);
    assert(is_digit_char(full[i]));
    assert(full[i] != '-');
    let end = i + ser_u32(n).len();
    assert(spec_num_end_frac(full, end) == Some((false, end)));
    assert(spec_num_end_exp(full, end) == Some((false, end)));
    assert(digits_val(ser_u32(n)) == n);
}

/// Lexing the rendering of a well-formed token run gives the run back.
#[verifier::rlimit(60)]
proof fn lemma_tokenize_render(full: Seq<char>, i: int, ts: Seq<Tok>)
    requires
        0 <= i <= full.len(),
        full.subrange(i, full.len() as int) == render_toks(ts),
        wf_toks(ts),
    ensures
        spec_tokenize_from(full, i) == Some(ts),
    decreases ts.len(),
{
    if ts.len() == 0 {
        assert(render_toks(ts).len() == 0);
        assert(i == full.len());
    } else {
        let t = ts[0];
        let rest = ts.drop_first();
        let rt = render_tok(t);
        assert(render_toks(ts) == rt + render_toks(rest));
        lemma_split_at(full, i, rt, render_toks(rest));
        assert(wf_toks(rest)) by {
            assert(forall|k: int| 0 <= k < rest.len() ==> rest[k] == ts[k + 1]);
        }
        let j = i + rt.len();
        assert(seq![t] + rest =~= ts);
        if rt.len() > 0 {
            assert(full[i + 0] == rt[0]);
        }
        match t {
            Tok::LBrace => {
                assert(full[i] == '{');
                lemma_tokenize_render(full, j, rest);
            },
            Tok::RBrace => {
                assert(full[i] == '}');
                lemma_tokenize_render(full, j, rest);
            },
            Tok::LBrack => {
                assert(full[i] == '[');
                lemma_tokenize_render(full, j, rest);
            },
            Tok::RBrack => {
                assert(full[i] == ']');
                lemma_tokenize_render(full, j, rest);
            },
            Tok::Colon => {
                assert(full[i] == ':');
                lemma_tokenize_render(full, j, rest);
            },
            Tok::Comma => {
                assert(full[i] == ',');
                lemma_tokenize_render(full, j, rest);
            },
            Tok::StrTok(s) => {
                assert(rt == seq!['"'] + escape(s) + seq!['"']);
                assert(full[i] == rt[0]);
                assert(full[i] == '"');
                assert forall|k: int| 0 <= k < escape(s).len() implies full[i + 1 + k] == escape(
                    s,
                )[k] by {
                    assert(rt[1 + k] == escape(s)[k]);
                }
                assert(full[i + 1 + escape(s).len()] == rt[1 + escape(s).len() as int]);
                assert(full[i + 1 + escape(s).len()] == '"');
                lemma_scan_escaped(full, i + 1, s);
                assert(spec_scan_str(full, i + 1) == Some((s, j)));
                lemma_tokenize_render(full, j, rest);
            },
            Tok::NumTok(n) => {
                lemma_ser_u32_digits(n);
                assert(full[i] == rt[0]);
                assert(is_digit_char(full[i]));
                if rest.len() > 0 {
                    assert(num_sep(ts[1]));
                    assert(render_toks(rest) == render_tok(rest[0]) + render_toks(
                        rest.drop_first(),
                    ));
                    assert(render_tok(rest[0]).len() == 1);
                    assert(render_toks(rest)[0] == render_tok(rest[0])[0]);
                    assert(full[j] == render_tok(rest[0])[0]);
                    assert(full[j] == ',' || full[j] == '}' || full[j] == ']');
                }
                lemma_lex_num_plain(full, i, n);
                lemma_tokenize_render(full, j, rest);
            },
            Tok::NumBig => {
                assert(canonical_tok(ts[0]));
                assert(false);
            },
            Tok::Word => {
                assert(canonical_tok(ts[0]));
                assert(false);
            },
        }
    }
}

// ---------------------------------------------------------------------------
// Round trip: the canonical tokens parse back to the value
// ---------------------------------------------------------------------------

/// The canonical element tokens of a string array: strings with commas
/// between them.
pub open spec fn arr_elem_toks(ss: Seq<Seq<char>>) -> Seq<Tok>
    decreases ss.len(),
{
    if ss.len() == 0 {
        Seq::empty()
    } else if ss.len() == 1 {
        seq![Tok::StrTok(ss[0])]
    } else {
        seq![Tok::StrTok(ss[0]), Tok::Comma] + arr_elem_toks(ss.drop_first())
    }
}

/// The canonical tokens of a string array.
pub open spec fn arr_toks(ss: Seq<Seq<char>>) -> Seq<Tok> {
    seq![Tok::LBrack] + arr_elem_toks(ss) + seq![Tok::RBrack]
}

/// The canonical tokens of a body.
pub open spec fn body_toks(b: BodyV) -> Seq<Tok> {
    match b {
        BodyV::Init(m) => seq![
            Tok::LBrace,
            Tok::StrTok("type"@),
            Tok::Colon,
            Tok::StrTok("init"@),
            Tok::Comma,
            Tok::StrTok("msg_id"@),
            Tok::Colon,
            Tok::NumTok(m.msg_id),
            Tok::Comma,
            Tok::StrTok("node_id"@),
            Tok::Colon,
            Tok::StrTok(m.node_id),
            Tok::Comma,
            Tok::StrTok("node_ids"@),
            Tok::Colon,
        ] + arr_toks(m.node_ids) + seq![Tok::RBrace],
        BodyV::Topology(m) => seq![
            Tok::LBrace,
            Tok::StrTok("type"@),
            Tok::Colon,
            Tok::StrTok("topology"@),
            Tok::Comma,
            Tok::StrTok("msg_id"@),
            Tok::Colon,
            Tok::NumTok(m.msg_id),
            Tok::Comma,
            Tok::StrTok("topology"@),
            Tok::Colon,
        ] + arr_toks(m.topology) + seq![Tok::RBrace],
        BodyV::Error(m) => seq![
            Tok::LBrace,
            Tok::StrTok("type"@),
            Tok::Colon,
            Tok::StrTok("error"@),
            Tok::Comma,
            Tok::StrTok("in_reply_to"@),
            Tok::Colon,
            Tok::NumTok(m.in_reply_to),
            Tok::Comma,
            Tok::StrTok("code"@),
            Tok::Colon,
            Tok::NumTok(code_of(m.code)),
            Tok::Comma,
            Tok::StrTok("text"@),
            Tok::Colon,
            Tok::StrTok(m.text),
            Tok::RBrace,
        ],
        BodyV::Unknown => seq![
            Tok::LBrace,
            Tok::StrTok("type"@),
            Tok::Colon,
            Tok::StrTok("unknown"@),
            Tok::RBrace,
        ],
    }
}

/// The canonical tokens of an envelope.
pub open spec fn msg_toks(m: MessageV) -> Seq<Tok> {
    seq![
        Tok::LBrace,
        Tok::StrTok("src"@),
        Tok::Colon,
        Tok::StrTok(m.src),
        Tok::Comma,
        Tok::StrTok("dest"@),
        Tok::Colon,
        Tok::StrTok(m.dest),
        Tok::Comma,
        Tok::StrTok("body"@),
        Tok::Colon,
    ] + body_toks(m.body) + seq![Tok::RBrace]
}

/// The slots that collecting a canonical body's members leaves behind.
pub open spec fn body_slots_of(b: BodyV) -> BodySlotsV {
    match b {
        BodyV::Init(m) => BodySlotsV {
            tag: SlotV::Val("init"@),
            msg_id: SlotV::Val(m.msg_id),
            node_id: SlotV::Val(m.node_id),
            node_ids: SlotV::Val(m.node_ids),
            topology: SlotV::Absent,
            in_reply_to: SlotV::Absent,
            code: SlotV::Absent,
            text: SlotV::Absent,
        },
        BodyV::Topology(m) => BodySlotsV {
            tag: SlotV::Val("topology"@),
            msg_id: SlotV::Val(m.msg_id),
            node_id: SlotV::Absent,
            node_ids: SlotV::Absent,
            topology: SlotV::Val(m.topology),
            in_reply_to: SlotV::Absent,
            code: SlotV::Absent,
            text: SlotV::Absent,
        },
        BodyV::Error(m) => BodySlotsV {
            tag: SlotV::Val("error"@),
            msg_id: SlotV::Absent,
            node_id: SlotV::Absent,
            node_ids: SlotV::Absent,
            topology: SlotV::Absent,
            in_reply_to: SlotV::Val(m.in_reply_to),
            code: SlotV::Val(code_of(m.code)),
            text: SlotV::Val(m.text),
        },
        BodyV::Unknown => BodySlotsV { tag: SlotV::Val("unknown"@), ..body_slots0() },
    }
}

/// Lengths and distinctions among the wire grammar's member keys.
proof fn lemma_key_facts()
    ensures
        "type"@.len() == 4,
        "msg_id"@.len() == 6,
        "node_id"@.len() == 7,
        "node_ids"@.len() == 8,
        "topology"@.len() == 8,
        "in_reply_to"@.len() == 11,
        "code"@.len() == 4,
        "text"@.len() == 4,
        "src"@.len() == 3,
        "dest"@.len() == 4,
        "body"@.len() == 4,
        "node_ids"@ != "topology"@,
        "type"@ != "code"@,
        "type"@ != "text"@,
        "code"@ != "text"@,
        "dest"@ != "body"@,
{
    reveal_strlit("type");
    reveal_strlit("msg_id");
    reveal_strlit("node_id");
    reveal_strlit("node_ids");
    reveal_strlit("topology");
    reveal_strlit("in_reply_to");
    reveal_strlit("code");
    reveal_strlit("text");
    reveal_strlit("src");
    reveal_strlit("dest");
    reveal_strlit("body");
    assert(("node_ids"@)[0] != ("topology"@)[0]);
    assert(("type"@)[0] != ("code"@)[0]);
    assert(("type"@)[1] != ("text"@)[1]);
    assert(("code"@)[0] != ("text"@)[0]);
    assert(("dest"@)[0] != ("body"@)[0]);
}

/// The canonical element tokens of an array are strings and commas only.
proof fn lemma_arr_elem_kinds(ss: Seq<Seq<char>>)
    ensures
        forall|j: int|
            0 <= j < arr_elem_toks(ss).len() ==> (#[trigger] arr_elem_toks(ss)[j]) is StrTok
                || arr_elem_toks(ss)[j] is Comma,
    decreases ss.len(),
{
    if ss.len() > 1 {
        lemma_arr_elem_kinds(ss.drop_first());
    }
}

/// Skipping a run of strings and commas stops just past the closing bracket.
proof fn lemma_skip_str_run(ts: Seq<Tok>, k: int, m: int)
    requires
        0 <= k <= m < ts.len(),
        forall|j: int| k <= j < m ==> (#[trigger] ts[j]) is StrTok || ts[j] is Comma,
        ts[m] is RBrack,
    ensures
        spec_skip_until(ts, k, 1) == Some(m + 1),
    decreases m - k,
{
    if k < m {
        lemma_skip_str_run(ts, k + 1, m);
    }
}

/// Reading the canonical element tokens of an array gives the elements back.
proof fn lemma_read_elems_run(ts: Seq<Tok>, k: int, ss: Seq<Seq<char>>)
    requires
        0 <= k,
        k + arr_elem_toks(ss).len() < ts.len(),
        forall|j: int| 0 <= j < arr_elem_toks(ss).len() ==> ts[k + j] == arr_elem_toks(ss)[j],
        ts[k + arr_elem_toks(ss).len()] is RBrack,
    ensures
        spec_read_elems(ts, k) == Some(ss),
    decreases ss.len(),
{
    if ss.len() == 0 {
        assert(ts[k] is RBrack);
    } else if ss.len() == 1 {
        assert(arr_elem_toks(ss) == seq![Tok::StrTok(ss[0])]);
        assert(arr_elem_toks(ss)[0] == Tok::StrTok(ss[0]));
        assert(ts[k + 0] == Tok::StrTok(ss[0]));
        assert(ts[k + 1] is RBrack);
        assert(seq![ss[0]] =~= ss);
    } else {
        let el = arr_elem_toks(ss);
        let rest = arr_elem_toks(ss.drop_first());
        assert(el == seq![Tok::StrTok(ss[0]), Tok::Comma] + rest);
        assert(ts[k + 0] == el[0]);
        assert(el[0] == Tok::StrTok(ss[0]));
        assert(ts[k + 1] == el[1]);
        assert(el[1] == Tok::Comma);
        assert forall|j: int| 0 <= j < rest.len() implies ts[k + 2 + j] == rest[j] by {
            assert(ts[k + (2 + j)] == el[2 + j]);
            assert(el[2 + j] == rest[j]);
        }
        lemma_read_elems_run(ts, k + 2, ss.drop_first());
        assert(seq![ss[0]] + ss.drop_first() =~= ss);
        assert(!(ts[k + 1] is RBrack));
    }
}

/// Skipping the canonical tokens of an array stops just past them.
proof fn lemma_skip_arr(ts: Seq<Tok>, k: int, ss: Seq<Seq<char>>)
    requires
        0 <= k,
        k + arr_toks(ss).len() <= ts.len(),
        forall|j: int| 0 <= j < arr_toks(ss).len() ==> ts[k + j] == arr_toks(ss)[j],
    ensures
        spec_skip_value(ts, k) == Some(k + arr_toks(ss).len()),
        spec_read_list(ts, k) == SlotV::Val(ss),
    decreases ss.len(),
{
    lemma_arr_elem_kinds(ss);
    let el = arr_elem_toks(ss);
    assert(arr_toks(ss).len() == el.len() + 2);
    assert(ts[k + 0] == arr_toks(ss)[0]);
    assert(arr_toks(ss)[0] == Tok::LBrack);
    let m = k + 1 + el.len();
    assert(ts[k + (1 + el.len() as int)] == arr_toks(ss)[1 + el.len() as int]);
    assert(arr_toks(ss)[1 + el.len() as int] == Tok::RBrack);
    assert(ts[m] is RBrack);
    assert forall|j: int| k + 1 <= j < m implies (#[trigger] ts[j]) is StrTok || ts[j]
        is Comma by {
        assert(ts[k + (j - k)] == arr_toks(ss)[j - k]);
        assert(arr_toks(ss)[j - k] == el[j - k - 1]);
    }
    lemma_skip_str_run(ts, k + 1, m);
    assert forall|j: int| 0 <= j < el.len() implies ts[k + 1 + j] == el[j] by {
        assert(ts[k + (1 + j)] == arr_toks(ss)[1 + j]);
        assert(arr_toks(ss)[1 + j] == el[j]);
    }
    lemma_read_elems_run(ts, k + 1, ss);
}

/// Collecting the members of a canonical body object leaves exactly the
/// slots of its kind, and interpreting them gives the body back.
#[verifier::rlimit(100)]
proof fn lemma_parse_body_canonical(ts: Seq<Tok>, p: int, b: BodyV)
    requires
        0 <= p,
        p + body_toks(b).len() <= ts.len(),
        forall|j: int| 0 <= j < body_toks(b).len() ==> ts[p + j] == body_toks(b)[j],
    ensures
        spec_parse_body_members(ts, p + 1, body_slots0(), true) == Ok::<
            (BodySlotsV, int),
            DecodeError,
        >((body_slots_of(b), p + body_toks(b).len())),
        spec_interp_body(body_slots_of(b)) == Ok::<BodyV, DecodeError>(b),
        body_toks(b).len() >= 5,
        body_toks(b)[0] == Tok::LBrace,
{
    lemma_key_facts();
    lemma_known_tags_distinct();
    let bt = body_toks(b);
    let s0 = body_slots0();
    match b {
        BodyV::Init(m) => {
            let pre = seq![
                Tok::LBrace,
                Tok::StrTok("type"@),
                Tok::Colon,
                Tok::StrTok("init"@),
                Tok::Comma,
                Tok::StrTok("msg_id"@),
                Tok::Colon,
                Tok::NumTok(m.msg_id),
                Tok::Comma,
                Tok::StrTok("node_id"@),
                Tok::Colon,
                Tok::StrTok(m.node_id),
                Tok::Comma,
                Tok::StrTok("node_ids"@),
                Tok::Colon,
            ];
            let la = arr_toks(m.node_ids).len() as int;
            assert(bt == pre + arr_toks(m.node_ids) + seq![Tok::RBrace]);
            assert(bt.len() == 16 + la);
            assert forall|j: int| 0 <= j < 15 implies bt[j] == pre[j] by {}
            assert forall|j: int| 0 <= j < la implies bt[15 + j] == arr_toks(m.node_ids)[j] by {}
            assert(bt[15 + la] == Tok::RBrace);
            assert(ts[p + 1] == Tok::StrTok("type"@));
            assert(ts[p + 2] == Tok::Colon);
            assert(ts[p + 3] == Tok::StrTok("init"@));
            assert(ts[p + 4] == Tok::Comma);
            assert(ts[p + 5] == Tok::StrTok("msg_id"@));
            assert(ts[p + 6] == Tok::Colon);
            assert(ts[p + 7] == Tok::NumTok(m.msg_id));
            assert(ts[p + 8] == Tok::Comma);
            assert(ts[p + 9] == Tok::StrTok("node_id"@));
            assert(ts[p + 10] == Tok::Colon);
            assert(ts[p + 11] == Tok::StrTok(m.node_id));
            assert(ts[p + 12] == Tok::Comma);
            assert(ts[p + 13] == Tok::StrTok("node_ids"@));
            assert(ts[p + 14] == Tok::Colon);
            assert forall|j: int| 0 <= j < la implies ts[p + 15 + j] == arr_toks(m.node_ids)[j] by {
                assert(ts[p + (15 + j)] == bt[15 + j]);
            }
            assert(ts[p + 15 + la] == Tok::RBrace) by {
                assert(ts[p + (15 + la)] == bt[15 + la]);
            }
            lemma_skip_arr(ts, p + 15, m.node_ids);
            let a1 = BodySlotsV { tag: SlotV::Val("init"@), ..s0 };
            assert(spec_read_str(ts, p + 3) == SlotV::Val("init"@));
            assert(spec_body_slot_update(s0, "type"@, ts, p + 3) == a1);
            assert(spec_parse_body_members(ts, p + 1, s0, true) == spec_parse_body_members(
                ts,
                p + 5,
                a1,
                false,
            ));
            let a2 = BodySlotsV { msg_id: SlotV::Val(m.msg_id), ..a1 };
            assert(spec_read_num(ts, p + 7) == SlotV::Val(m.msg_id));
            assert(spec_body_slot_update(a1, "msg_id"@, ts, p + 7) == a2);
            assert(spec_parse_body_members(ts, p + 5, a1, false) == spec_parse_body_members(
                ts,
                p + 9,
                a2,
                false,
            ));
            let a3 = BodySlotsV { node_id: SlotV::Val(m.node_id), ..a2 };
            assert(spec_read_str(ts, p + 11) == SlotV::Val(m.node_id));
            assert(spec_body_slot_update(a2, "node_id"@, ts, p + 11) == a3);
            assert(spec_parse_body_members(ts, p + 9, a2, false) == spec_parse_body_members(
                ts,
                p + 13,
                a3,
                false,
            ));
            let a4 = BodySlotsV { node_ids: SlotV::Val(m.node_ids), ..a3 };
            assert(spec_body_slot_update(a3, "node_ids"@, ts, p + 15) == a4);
            assert(spec_parse_body_members(ts, p + 13, a3, false) == Ok::<
                (BodySlotsV, int),
                DecodeError,
            >((a4, p + 16 + la)));
            assert(a4 == body_slots_of(b));
            assert(m == InitV { msg_id: m.msg_id, node_id: m.node_id, node_ids: m.node_ids });
        },
        BodyV::Topology(m) => {
            let pre = seq![
                Tok::LBrace,
                Tok::StrTok("type"@),
                Tok::Colon,
                Tok::StrTok("topology"@),
                Tok::Comma,
                Tok::StrTok("msg_id"@),
                Tok::Colon,
                Tok::NumTok(m.msg_id),
                Tok::Comma,
                Tok::StrTok("topology"@),
                Tok::Colon,
            ];
            let la = arr_toks(m.topology).len() as int;
            assert(bt == pre + arr_toks(m.topology) + seq![Tok::RBrace]);
            assert(bt.len() == 12 + la);
            assert forall|j: int| 0 <= j < 11 implies bt[j] == pre[j] by {}
            assert(ts[p + 1] == Tok::StrTok("type"@));
            assert(ts[p + 2] == Tok::Colon);
            assert(ts[p + 3] == Tok::StrTok("topology"@));
            assert(ts[p + 4] == Tok::Comma);
            assert(ts[p + 5] == Tok::StrTok("msg_id"@));
            assert(ts[p + 6] == Tok::Colon);
            assert(ts[p + 7] == Tok::NumTok(m.msg_id));
            assert(ts[p + 8] == Tok::Comma);
            assert(ts[p + 9] == Tok::StrTok("topology"@));
            assert(ts[p + 10] == Tok::Colon);
            assert forall|j: int| 0 <= j < la implies ts[p + 11 + j] == arr_toks(m.topology)[j] by {
                assert(ts[p + (11 + j)] == bt[11 + j]);
                assert(bt[11 + j] == arr_toks(m.topology)[j]);
            }
            assert(ts[p + 11 + la] == Tok::RBrace) by {
                assert(ts[p + (11 + la)] == bt[11 + la]);
            }
            lemma_skip_arr(ts, p + 11, m.topology);
            let a1 = BodySlotsV { tag: SlotV::Val("topology"@), ..s0 };
            assert(spec_read_str(ts, p + 3) == SlotV::Val("topology"@));
            assert(spec_body_slot_update(s0, "type"@, ts, p + 3) == a1);
            assert(spec_parse_body_members(ts, p + 1, s0, true) == spec_parse_body_members(
                ts,
                p + 5,
                a1,
                false,
            ));
            let a2 = BodySlotsV { msg_id: SlotV::Val(m.msg_id), ..a1 };
            assert(spec_body_slot_update(a1, "msg_id"@, ts, p + 7) == a2);
            assert(spec_parse_body_members(ts, p + 5, a1, false) == spec_parse_body_members(
                ts,
                p + 9,
                a2,
                false,
            ));
            let a3 = BodySlotsV { topology: SlotV::Val(m.topology), ..a2 };
            assert(spec_body_slot_update(a2, "topology"@, ts, p + 11) == a3);
            assert(spec_parse_body_members(ts, p + 9, a2, false) == Ok::<
                (BodySlotsV, int),
                DecodeError,
            >((a3, p + 12 + la)));
            assert(a3 == body_slots_of(b));
            assert(m == TopologyV { msg_id: m.msg_id, topology: m.topology });
        },
        BodyV::Error(m) => {
            assert(bt.len() == 17);
            assert(ts[p + 1] == Tok::StrTok("type"@));
            assert(ts[p + 2] == Tok::Colon);
            assert(ts[p + 3] == Tok::StrTok("error"@));
            assert(ts[p + 4] == Tok::Comma);
            assert(ts[p + 5] == Tok::StrTok("in_reply_to"@));
            assert(ts[p + 6] == Tok::Colon);
            assert(ts[p + 7] == Tok::NumTok(m.in_reply_to));
            assert(ts[p + 8] == Tok::Comma);
            assert(ts[p + 9] == Tok::StrTok("code"@));
            assert(ts[p + 10] == Tok::Colon);
            assert(ts[p + 11] == Tok::NumTok(code_of(m.code)));
            assert(ts[p + 12] == Tok::Comma);
            assert(ts[p + 13] == Tok::StrTok("text"@));
            assert(ts[p + 14] == Tok::Colon);
            assert(ts[p + 15] == Tok::StrTok(m.text));
            assert(ts[p + 16] == Tok::RBrace);
            let a1 = BodySlotsV { tag: SlotV::Val("error"@), ..s0 };
            assert(spec_body_slot_update(s0, "type"@, ts, p + 3) == a1);
            assert(spec_parse_body_members(ts, p + 1, s0, true) == spec_parse_body_members(
                ts,
                p + 5,
                a1,
                false,
            ));
            let a2 = BodySlotsV { in_reply_to: SlotV::Val(m.in_reply_to), ..a1 };
            assert(spec_body_slot_update(a1, "in_reply_to"@, ts, p + 7) == a2);
            assert(spec_parse_body_members(ts, p + 5, a1, false) == spec_parse_body_members(
                ts,
                p + 9,
                a2,
                false,
            ));
            let a3 = BodySlotsV { code: SlotV::Val(code_of(m.code)), ..a2 };
            assert(spec_body_slot_update(a2, "code"@, ts, p + 11) == a3);
            assert(spec_parse_body_members(ts, p + 9, a2, false) == spec_parse_body_members(
                ts,
                p + 13,
                a3,
                false,
            ));
            let a4 = BodySlotsV { text: SlotV::Val(m.text), ..a3 };
            assert(spec_body_slot_update(a3, "text"@, ts, p + 15) == a4);
            assert(spec_parse_body_members(ts, p + 13, a3, false) == Ok::<
                (BodySlotsV, int),
                DecodeError,
            >((a4, p + 17)));
            assert(a4 == body_slots_of(b));
            crate::message::lemma_error_code_bijection(m.code, 0);
            assert(m == ErrorV { in_reply_to: m.in_reply_to, code: m.code, text: m.text });
        },
        BodyV::Unknown => {
            assert(bt.len() == 5);
            assert(ts[p + 1] == Tok::StrTok("type"@));
            assert(ts[p + 2] == Tok::Colon);
            assert(ts[p + 3] == Tok::StrTok("unknown"@));
            assert(ts[p + 4] == Tok::RBrace);
            let a1 = BodySlotsV { tag: SlotV::Val("unknown"@), ..s0 };
            assert(spec_body_slot_update(s0, "type"@, ts, p + 3) == a1);
            assert(spec_parse_body_members(ts, p + 1, s0, true) == Ok::<
                (BodySlotsV, int),
                DecodeError,
            >((a1, p + 5)));
            assert(a1 == body_slots_of(b));
        },
    }
}

/// Parsing the canonical tokens of an envelope gives the envelope back.
#[verifier::rlimit(100)]
proof fn lemma_parse_canonical(m: MessageV)
    ensures
        spec_parse_message(msg_toks(m)) == Ok::<MessageV, DecodeError>(m),
{
    lemma_key_facts();
    let ts = msg_toks(m);
    let bt = body_toks(m.body);
    let pre = seq![
        Tok::LBrace,
        Tok::StrTok("src"@),
        Tok::Colon,
        Tok::StrTok(m.src),
        Tok::Comma,
        Tok::StrTok("dest"@),
        Tok::Colon,
        Tok::StrTok(m.dest),
        Tok::Comma,
        Tok::StrTok("body"@),
        Tok::Colon,
    ];
    assert(ts == pre + bt + seq![Tok::RBrace]);
    let bl = bt.len() as int;
    assert(ts.len() == 12 + bl);
    assert forall|j: int| 0 <= j < 11 implies ts[j] == pre[j] by {}
    assert forall|j: int| 0 <= j < bl implies ts[11 + j] == bt[j] by {}
    assert(ts[11 + bl] == Tok::RBrace);
    lemma_parse_body_canonical(ts, 11, m.body);
    assert(ts[11] == bt[0]);
    assert(ts[11] is LBrace);
    let s0 = env_slots0();
    let e1 = EnvSlotsV { src: Some(m.src), ..s0 };
    assert(spec_parse_env_members(ts, 1, s0, true) == spec_env_after_value(ts, 4, e1));
    assert(spec_env_after_value(ts, 4, e1) == spec_parse_env_members(ts, 5, e1, false));
    let e2 = EnvSlotsV { dest: Some(m.dest), ..e1 };
    assert(spec_parse_env_members(ts, 5, e1, false) == spec_env_after_value(ts, 8, e2));
    assert(spec_env_after_value(ts, 8, e2) == spec_parse_env_members(ts, 9, e2, false));
    let e3 = EnvSlotsV { body: Some(m.body), ..e2 };
    assert(spec_parse_env_members(ts, 9, e2, false) == spec_env_after_value(ts, 11 + bl, e3));
    assert(spec_env_after_value(ts, 11 + bl, e3) == Ok::<(EnvSlotsV, int), DecodeError>(
        (e3, 12 + bl),
    ));
    assert(m == MessageV { src: m.src, dest: m.dest, body: m.body });
}

// ---------------------------------------------------------------------------
// Round trip: the canonical line is the rendering of the canonical tokens
// ---------------------------------------------------------------------------

/// Escaping changes nothing in a string without characters that need it.
proof fn lemma_escape_clean(s: Seq<char>)
    requires
        forall|k: int|
            0 <= k < s.len() ==> #[trigger] s[k] != '"' && s[k] != '\\' && s[k] != '\n' && s[k]
                != '\t' && s[k] != '\r',
    ensures
        escape(s) == s,
    decreases s.len(),
{
    if s.len() == 0 {
        assert(escape(s) =~= s);
    } else {
        lemma_escape_clean(s.drop_last());
        assert(escape(s) =~= s);
    }
}

/// Rendering distributes over concatenation of token runs.
proof fn lemma_render_concat(a: Seq<Tok>, b: Seq<Tok>)
    ensures
        render_toks(a + b) == render_toks(a) + render_toks(b),
    decreases a.len(),
{
    if a.len() == 0 {
        assert(a + b =~= b);
        assert(render_toks(a) + render_toks(b) =~= render_toks(b));
    } else {
        assert((a + b).drop_first() =~= a.drop_first() + b);
        assert((a + b)[0] == a[0]);
        lemma_render_concat(a.drop_first(), b);
        assert(render_toks(a + b) =~= render_toks(a) + render_toks(b));
    }
}

/// The canonical element list of a nonempty array starts with its first
/// element's form.
proof fn lemma_arr_elems_front(ss: Seq<Seq<char>>)
    requires
        ss.len() > 0,
    ensures
        ss.len() == 1 ==> arr_elems(ss) == json_str(ss[0]),
        ss.len() > 1 ==> arr_elems(ss) == json_str(ss[0]) + seq![','] + arr_elems(
            ss.drop_first(),
        ),
    decreases ss.len(),
{
    if ss.len() == 1 {
    } else if ss.len() == 2 {
        assert(ss.drop_last() =~= seq![ss[0]]);
        assert(ss.drop_first() =~= seq![ss[1]]);
        assert(arr_elems(seq![ss[0]]) == json_str(ss[0]));
        assert(arr_elems(ss.drop_first()) == json_str(ss[1]));
        assert(ss.last() == ss[1]);
        assert(arr_elems(ss) =~= json_str(ss[0]) + seq![','] + arr_elems(ss.drop_first()));
    } else {
        let d = ss.drop_last();
        lemma_arr_elems_front(d);
        assert(d[0] == ss[0]);
        assert(ss.drop_first().drop_last() =~= d.drop_first());
        assert(ss.drop_first().last() == ss.last());
        assert(ss.drop_first().len() > 1);
        assert(arr_elems(ss) =~= json_str(ss[0]) + seq![','] + arr_elems(ss.drop_first()));
    }
}

/// The canonical tokens of an array render as its canonical form.
proof fn lemma_render_arr_elems(ss: Seq<Seq<char>>)
    ensures
        render_toks(arr_elem_toks(ss)) == arr_elems(ss),
    decreases ss.len(),
{
    reveal_with_fuel(render_toks, 5);
    if ss.len() == 0 {
        assert(render_toks(arr_elem_toks(ss)) =~= arr_elems(ss));
    } else if ss.len() == 1 {
        assert(arr_elem_toks(ss) == seq![Tok::StrTok(ss[0])]);
        assert(seq![Tok::StrTok(ss[0])].drop_first() =~= Seq::<Tok>::empty());
        assert(render_toks(arr_elem_toks(ss)) =~= json_str(ss[0]));
        lemma_arr_elems_front(ss);
    } else {
        let rest = arr_elem_toks(ss.drop_first());
        assert(arr_elem_toks(ss) == seq![Tok::StrTok(ss[0]), Tok::Comma] + rest);
        lemma_render_concat(seq![Tok::StrTok(ss[0]), Tok::Comma], rest);
        assert(seq![Tok::StrTok(ss[0]), Tok::Comma].drop_first() =~= seq![Tok::Comma]);
        assert(seq![Tok::Comma].drop_first() =~= Seq::<Tok>::empty());
        assert(render_toks(seq![Tok::StrTok(ss[0]), Tok::Comma]) =~= json_str(ss[0]) + seq![',']);
        lemma_render_arr_elems(ss.drop_first());
        lemma_arr_elems_front(ss);
        assert(render_toks(arr_elem_toks(ss)) =~= arr_elems(ss));
    }
}

/// The canonical tokens of an array render as its canonical form, brackets
/// included.
proof fn lemma_render_arr(ss: Seq<Seq<char>>)
    ensures
        render_toks(arr_toks(ss)) == spec_encode_arr(ss),
{
    reveal_with_fuel(render_toks, 5);
    let el = arr_elem_toks(ss);
    lemma_render_concat(seq![Tok::LBrack], el + seq![Tok::RBrack]);
    lemma_render_concat(el, seq![Tok::RBrack]);
    lemma_render_arr_elems(ss);
    assert(seq![Tok::LBrack].drop_first() =~= Seq::<Tok>::empty());
    assert(seq![Tok::RBrack].drop_first() =~= Seq::<Tok>::empty());
    assert(render_toks(seq![Tok::LBrack]) =~= seq!['[']);
    assert(render_toks(seq![Tok::RBrack]) =~= seq![']']);
    assert(seq![Tok::LBrack] + (el + seq![Tok::RBrack]) =~= arr_toks(ss));
    assert(render_toks(arr_toks(ss)) =~= spec_encode_arr(ss));
}

/// Rendering a one-token run.
proof fn lemma_render1(a: Tok)
    ensures
        render_toks(seq![a]) == render_tok(a),
{
    reveal_with_fuel(render_toks, 3);
    assert(seq![a].drop_first() =~= Seq::<Tok>::empty());
    assert(render_toks(seq![a]) =~= render_tok(a));
}

/// Rendering a two-token run.
proof fn lemma_render2(a: Tok, b: Tok)
    ensures
        render_toks(seq![a, b]) == render_tok(a) + render_tok(b),
{
    lemma_render1(a);
    lemma_render1(b);
    lemma_render_concat(seq![a], seq![b]);
    assert(seq![a] + seq![b] =~= seq![a, b]);
}

/// Rendering a three-token run.
proof fn lemma_render3(a: Tok, b: Tok, c: Tok)
    ensures
        render_toks(seq![a, b, c]) == render_tok(a) + render_tok(b) + render_tok(c),
{
    reveal_with_fuel(render_toks, 5);
    assert(seq![a, b, c].drop_first() =~= seq![b, c]);
    assert(seq![b, c].drop_first() =~= seq![c]);
    assert(seq![c].drop_first() =~= Seq::<Tok>::empty());
    assert(render_toks(seq![a, b, c]) =~= render_tok(a) + render_tok(b) + render_tok(c));
}

/// Rendering a seven-token run.
proof fn lemma_render7(a: Tok, b: Tok, c: Tok, d: Tok, e: Tok, f: Tok, g: Tok)
    ensures
        render_toks(seq![a, b, c, d, e, f, g]) == render_tok(a) + render_tok(b) + render_tok(c)
            + render_tok(d) + render_tok(e) + render_tok(f) + render_tok(g),
{
    lemma_render3(e, f, g);
    lemma_render3(b, c, d);
    lemma_render_concat(seq![b, c, d], seq![e, f, g]);
    lemma_render_concat(seq![a], seq![b, c, d] + seq![e, f, g]);
    lemma_render1(a);
    assert(seq![a] + (seq![b, c, d] + seq![e, f, g]) =~= seq![a, b, c, d, e, f, g]);
    assert(render_toks(seq![a, b, c, d, e, f, g]) =~= render_tok(a) + render_tok(b) + render_tok(
        c,
    ) + render_tok(d) + render_tok(e) + render_tok(f) + render_tok(g));
}

/// The opening chunk of a canonical envelope, spelled in tokens.
proof fn lemma_chunk_env()
    ensures
        "{\"src\":"@ == seq!['{'] + json_str("src"@) + seq![':'],
        ",\"dest\":"@ == seq![','] + json_str("dest"@) + seq![':'],
        ",\"body\":"@ == seq![','] + json_str("body"@) + seq![':'],
        "}"@ == seq!['}'],
{
    reveal_strlit("src");
    reveal_strlit("dest");
    reveal_strlit("body");
    reveal_strlit("{\"src\":");
    reveal_strlit(",\"dest\":");
    reveal_strlit(",\"body\":");
    reveal_strlit("}");
    lemma_escape_clean("src"@);
    lemma_escape_clean("dest"@);
    lemma_escape_clean("body"@);
    assert("{\"src\":"@ =~= seq!['{'] + json_str("src"@) + seq![':']);
    assert(",\"dest\":"@ =~= seq![','] + json_str("dest"@) + seq![':']);
    assert(",\"body\":"@ =~= seq![','] + json_str("body"@) + seq![':']);
    assert("}"@ =~= seq!['}']);
}

/// The fixed chunks of a canonical `init` body, spelled in tokens.
proof fn lemma_chunk_init()
    ensures
        "{\"type\":\"init\",\"msg_id\":"@ == seq!['{'] + json_str("type"@) + seq![':'] + json_str(
            "init"@,
        ) + seq![','] + json_str("msg_id"@) + seq![':'],
        ",\"node_id\":"@ == seq![','] + json_str("node_id"@) + seq![':'],
        ",\"node_ids\":"@ == seq![','] + json_str("node_ids"@) + seq![':'],
{
    reveal_strlit("type");
    reveal_strlit("init");
    reveal_strlit("msg_id");
    reveal_strlit("node_id");
    reveal_strlit("node_ids");
    reveal_strlit("{\"type\":\"init\",\"msg_id\":");
    reveal_strlit(",\"node_id\":");
    reveal_strlit(",\"node_ids\":");
    lemma_escape_clean("type"@);
    lemma_escape_clean("init"@);
    lemma_escape_clean("msg_id"@);
    lemma_escape_clean("node_id"@);
    lemma_escape_clean("node_ids"@);
    assert("{\"type\":\"init\",\"msg_id\":"@ =~= seq!['{'] + json_str("type"@) + seq![':']
        + json_str("init"@) + seq![','] + json_str("msg_id"@) + seq![':']);
    assert(",\"node_id\":"@ =~= seq![','] + json_str("node_id"@) + seq![':']);
    assert(",\"node_ids\":"@ =~= seq![','] + json_str("node_ids"@) + seq![':']);
}

/// The fixed chunks of a canonical `topology` body, spelled in tokens.
proof fn lemma_chunk_topology()
    ensures
        "{\"type\":\"topology\",\"msg_id\":"@ == seq!['{'] + json_str("type"@) + seq![':']
            + json_str("topology"@) + seq![','] + json_str("msg_id"@) + seq![':'],
        ",\"topology\":"@ == seq![','] + json_str("topology"@) + seq![':'],
{
    reveal_strlit("type");
    reveal_strlit("topology");
    reveal_strlit("msg_id");
    reveal_strlit("{\"type\":\"topology\",\"msg_id\":");
    reveal_strlit(",\"topology\":");
    lemma_escape_clean("type"@);
    lemma_escape_clean("topology"@);
    lemma_escape_clean("msg_id"@);
    assert("{\"type\":\"topology\",\"msg_id\":"@ =~= seq!['{'] + json_str("type"@) + seq![':']
        + json_str("topology"@) + seq![','] + json_str("msg_id"@) + seq![':']);
    assert(",\"topology\":"@ =~= seq![','] + json_str("topology"@) + seq![':']);
}

/// The fixed chunks of a canonical `error` body, spelled in tokens.
proof fn lemma_chunk_error()
    ensures
        "{\"type\":\"error\",\"in_reply_to\":"@ == seq!['{'] + json_str("type"@) + seq![':']
            + json_str("error"@) + seq![','] + json_str("in_reply_to"@) + seq![':'],
        ",\"code\":"@ == seq![','] + json_str("code"@) + seq![':'],
        ",\"text\":"@ == seq![','] + json_str("text"@) + seq![':'],
{
    reveal_strlit("type");
    reveal_strlit("error");
    reveal_strlit("in_reply_to");
    reveal_strlit("code");
    reveal_strlit("text");
    reveal_strlit("{\"type\":\"error\",\"in_reply_to\":");
    reveal_strlit(",\"code\":");
    reveal_strlit(",\"text\":");
    lemma_escape_clean("type"@);
    lemma_escape_clean("error"@);
    lemma_escape_clean("in_reply_to"@);
    lemma_escape_clean("code"@);
    lemma_escape_clean("text"@);
    assert("{\"type\":\"error\",\"in_reply_to\":"@ =~= seq!['{'] + json_str("type"@) + seq![':']
        + json_str("error"@) + seq![','] + json_str("in_reply_to"@) + seq![':']);
    assert(",\"code\":"@ =~= seq![','] + json_str("code"@) + seq![':']);
    assert(",\"text\":"@ =~= seq![','] + json_str("text"@) + seq![':']);
}

/// The single chunk of a canonical `unknown` body, spelled in tokens.
proof fn lemma_chunk_unknown()
    ensures
        "{\"type\":\"unknown\"}"@ == seq!['{'] + json_str("type"@) + seq![':'] + json_str(
            "unknown"@,
        ) + seq!['}'],
{
    reveal_strlit("type");
    reveal_strlit("unknown");
    reveal_strlit("{\"type\":\"unknown\"}");
    lemma_escape_clean("type"@);
    lemma_escape_clean("unknown"@);
    assert("{\"type\":\"unknown\"}"@ =~= seq!['{'] + json_str("type"@) + seq![':'] + json_str(
        "unknown"@,
    ) + seq!['}']);
}

/// The canonical form of a body is the rendering of its canonical tokens.
proof fn lemma_encode_body_render(b: BodyV)
    ensures
        spec_encode_body(b) == render_toks(body_toks(b)),
{
    match b {
        BodyV::Init(m) => {
            lemma_encode_init_render(m);
        },
        BodyV::Topology(m) => {
            lemma_encode_topology_render(m);
        },
        BodyV::Error(m) => {
            lemma_encode_error_render(m);
        },
        BodyV::Unknown => {
            let g1 = seq![Tok::LBrace, Tok::StrTok("type"@), Tok::Colon];
            let v1 = seq![Tok::StrTok("unknown"@), Tok::RBrace];
            let bt = body_toks(b);
            assert(bt =~= g1 + v1);
            lemma_render_concat(g1, v1);
            lemma_render3(Tok::LBrace, Tok::StrTok("type"@), Tok::Colon);
            lemma_render2(Tok::StrTok("unknown"@), Tok::RBrace);
            assert(render_toks(v1) =~= json_str("unknown"@) + seq!['}']);
            lemma_chunk_unknown();
            assert(render_toks(g1) =~= seq!['{'] + json_str("type"@) + seq![':']);
            assert(spec_encode_body(b) =~= render_toks(bt));
        },
    }
}

/// The canonical form of an `init` body is the rendering of its tokens.
#[verifier::rlimit(100)]
proof fn lemma_encode_init_render(m: InitV)
    ensures
        spec_encode_body(BodyV::Init(m)) == render_toks(body_toks(BodyV::Init(m))),
{
    let bt = body_toks(BodyV::Init(m));
    let g1 = seq![
        Tok::LBrace,
        Tok::StrTok("type"@),
        Tok::Colon,
        Tok::StrTok("init"@),
        Tok::Comma,
        Tok::StrTok("msg_id"@),
        Tok::Colon,
    ];
    let n1 = seq![Tok::NumTok(m.msg_id)];
    let g2 = seq![Tok::Comma, Tok::StrTok("node_id"@), Tok::Colon];
    let v1 = seq![Tok::StrTok(m.node_id)];
    let g3 = seq![Tok::Comma, Tok::StrTok("node_ids"@), Tok::Colon];
    let ar = arr_toks(m.node_ids);
    let rb = seq![Tok::RBrace];
    let t6 = ar + rb;
    let t5 = g3 + t6;
    let t4 = v1 + t5;
    let t3 = g2 + t4;
    let t2 = n1 + t3;
    let t1 = g1 + t2;
    assert(bt =~= t1);
    lemma_render_concat(g1, t2);
    lemma_render_concat(n1, t3);
    lemma_render_concat(g2, t4);
    lemma_render_concat(v1, t5);
    lemma_render_concat(g3, t6);
    lemma_render_concat(ar, rb);
    lemma_render7(
        Tok::LBrace,
        Tok::StrTok("type"@),
        Tok::Colon,
        Tok::StrTok("init"@),
        Tok::Comma,
        Tok::StrTok("msg_id"@),
        Tok::Colon,
    );
    lemma_render1(Tok::NumTok(m.msg_id));
    lemma_render3(Tok::Comma, Tok::StrTok("node_id"@), Tok::Colon);
    lemma_render1(Tok::StrTok(m.node_id));
    lemma_render3(Tok::Comma, Tok::StrTok("node_ids"@), Tok::Colon);
    lemma_render_arr(m.node_ids);
    lemma_render1(Tok::RBrace);
    lemma_chunk_init();
    lemma_chunk_env();
    assert(render_toks(g1) =~= "{\"type\":\"init\",\"msg_id\":"@);
    assert(render_toks(g2) =~= ",\"node_id\":"@);
    assert(render_toks(g3) =~= ",\"node_ids\":"@);
    assert(render_toks(bt) =~= "{\"type\":\"init\",\"msg_id\":"@ + (ser_u32(m.msg_id) + (
    ",\"node_id\":"@ + (json_str(m.node_id) + (",\"node_ids\":"@ + (spec_encode_arr(m.node_ids)
        + "}"@))))));
    assert(spec_encode_body(BodyV::Init(m)) =~= render_toks(bt));
}

/// The canonical form of a `topology` body is the rendering of its tokens.
#[verifier::rlimit(100)]
proof fn lemma_encode_topology_render(m: TopologyV)
    ensures
        spec_encode_body(BodyV::Topology(m)) == render_toks(body_toks(BodyV::Topology(m))),
{
    let bt = body_toks(BodyV::Topology(m));
    let g1 = seq![
        Tok::LBrace,
        Tok::StrTok("type"@),
        Tok::Colon,
        Tok::StrTok("topology"@),
        Tok::Comma,
        Tok::StrTok("msg_id"@),
        Tok::Colon,
    ];
    let n1 = seq![Tok::NumTok(m.msg_id)];
    let g2 = seq![Tok::Comma, Tok::StrTok("topology"@), Tok::Colon];
    let ar = arr_toks(m.topology);
    let rb = seq![Tok::RBrace];
    let t4 = ar + rb;
    let t3 = g2 + t4;
    let t2 = n1 + t3;
    let t1 = g1 + t2;
    assert(bt =~= t1);
    lemma_render_concat(g1, t2);
    lemma_render_concat(n1, t3);
    lemma_render_concat(g2, t4);
    lemma_render_concat(ar, rb);
    lemma_render7(
        Tok::LBrace,
        Tok::StrTok("type"@),
        Tok::Colon,
        Tok::StrTok("topology"@),
        Tok::Comma,
        Tok::StrTok("msg_id"@),
        Tok::Colon,
    );
    lemma_render1(Tok::NumTok(m.msg_id));
    lemma_render3(Tok::Comma, Tok::StrTok("topology"@), Tok::Colon);
    lemma_render_arr(m.topology);
    lemma_render1(Tok::RBrace);
    lemma_chunk_topology();
    lemma_chunk_env();
    assert(render_toks(g1) =~= "{\"type\":\"topology\",\"msg_id\":"@);
    assert(render_toks(g2) =~= ",\"topology\":"@);
    assert(render_toks(bt) =~= "{\"type\":\"topology\",\"msg_id\":"@ + (ser_u32(m.msg_id) + (
    ",\"topology\":"@ + (spec_encode_arr(m.topology) + "}"@))));
    assert(spec_encode_body(BodyV::Topology(m)) =~= render_toks(bt));
}

/// The canonical form of an `error` body is the rendering of its tokens.
#[verifier::rlimit(100)]
proof fn lemma_encode_error_render(m: ErrorV)
    ensures
        spec_encode_body(BodyV::Error(m)) == render_toks(body_toks(BodyV::Error(m))),
{
    let bt = body_toks(BodyV::Error(m));
    let g1 = seq![
        Tok::LBrace,
        Tok::StrTok("type"@),
        Tok::Colon,
        Tok::StrTok("error"@),
        Tok::Comma,
        Tok::StrTok("in_reply_to"@),
        Tok::Colon,
    ];
    let n1 = seq![Tok::NumTok(m.in_reply_to)];
    let g2 = seq![Tok::Comma, Tok::StrTok("code"@), Tok::Colon];
    let n2 = seq![Tok::NumTok(code_of(m.code))];
    let g3 = seq![Tok::Comma, Tok::StrTok("text"@), Tok::Colon];
    let v1 = seq![Tok::StrTok(m.text)];
    let rb = seq![Tok::RBrace];
    let t6 = v1 + rb;
    let t5 = g3 + t6;
    let t4 = n2 + t5;
    let t3 = g2 + t4;
    let t2 = n1 + t3;
    let t1 = g1 + t2;
    assert(bt =~= t1);
    lemma_render_concat(g1, t2);
    lemma_render_concat(n1, t3);
    lemma_render_concat(g2, t4);
    lemma_render_concat(n2, t5);
    lemma_render_concat(g3, t6);
    lemma_render_concat(v1, rb);
    lemma_render7(
        Tok::LBrace,
        Tok::StrTok("type"@),
        Tok::Colon,
        Tok::StrTok("error"@),
        Tok::Comma,
        Tok::StrTok("in_reply_to"@),
        Tok::Colon,
    );
    lemma_render1(Tok::NumTok(m.in_reply_to));
    lemma_render3(Tok::Comma, Tok::StrTok("code"@), Tok::Colon);
    lemma_render1(Tok::NumTok(code_of(m.code)));
    lemma_render3(Tok::Comma, Tok::StrTok("text"@), Tok::Colon);
    lemma_render1(Tok::StrTok(m.text));
    lemma_render1(Tok::RBrace);
    lemma_chunk_error();
    lemma_chunk_env();
    assert(render_toks(g1) =~= "{\"type\":\"error\",\"in_reply_to\":"@);
    assert(render_toks(g2) =~= ",\"code\":"@);
    assert(render_toks(g3) =~= ",\"text\":"@);
    assert(render_toks(bt) =~= "{\"type\":\"error\",\"in_reply_to\":"@ + (ser_u32(
        m.in_reply_to,
    ) + (",\"code\":"@ + (ser_u32(code_of(m.code)) + (",\"text\":"@ + (json_str(m.text)
        + "}"@))))));
    assert(spec_encode_body(BodyV::Error(m)) =~= render_toks(bt));
}

/// The canonical form of an envelope is the rendering of its canonical
/// tokens.
#[verifier::rlimit(100)]
proof fn lemma_encode_msg_render(m: MessageV)
    ensures
        spec_encode_msg(m) == render_toks(msg_toks(m)),
{
    let ts = msg_toks(m);
    let bt = body_toks(m.body);
    let g1 = seq![Tok::LBrace, Tok::StrTok("src"@), Tok::Colon];
    let v1 = seq![Tok::StrTok(m.src)];
    let g2 = seq![Tok::Comma, Tok::StrTok("dest"@), Tok::Colon];
    let v2 = seq![Tok::StrTok(m.dest)];
    let g3 = seq![Tok::Comma, Tok::StrTok("body"@), Tok::Colon];
    let rb = seq![Tok::RBrace];
    let t6 = bt + rb;
    let t5 = g3 + t6;
    let t4 = v2 + t5;
    let t3 = g2 + t4;
    let t2 = v1 + t3;
    let t1 = g1 + t2;
    assert(ts =~= t1);
    lemma_render_concat(g1, t2);
    lemma_render_concat(v1, t3);
    lemma_render_concat(g2, t4);
    lemma_render_concat(v2, t5);
    lemma_render_concat(g3, t6);
    lemma_render_concat(bt, rb);
    lemma_render3(Tok::LBrace, Tok::StrTok("src"@), Tok::Colon);
    lemma_render1(Tok::StrTok(m.src));
    lemma_render3(Tok::Comma, Tok::StrTok("dest"@), Tok::Colon);
    lemma_render1(Tok::StrTok(m.dest));
    lemma_render3(Tok::Comma, Tok::StrTok("body"@), Tok::Colon);
    lemma_render1(Tok::RBrace);
    lemma_encode_body_render(m.body);
    lemma_chunk_env();
    assert(render_toks(g1) =~= "{\"src\":"@);
    assert(render_toks(g2) =~= ",\"dest\":"@);
    assert(render_toks(g3) =~= ",\"body\":"@);
    assert(render_toks(ts) =~= "{\"src\":"@ + (json_str(m.src) + (",\"dest\":"@ + (json_str(
        m.dest,
    ) + (",\"body\":"@ + (spec_encode_body(m.body) + "}"@))))));
    assert(spec_encode_msg(m) =~= render_toks(ts));
}

/// The canonical tokens of a body are well formed: no stray kinds, every
/// number followed by a separator, a closing brace at the end.
#[verifier::rlimit(100)]
proof fn lemma_wf_body(b: BodyV)
    ensures
        forall|j: int| 0 <= j < body_toks(b).len() ==> canonical_tok(#[trigger] body_toks(b)[j]),
        forall|j: int|
            0 <= j < body_toks(b).len() - 1 && (#[trigger] body_toks(b)[j]) is NumTok ==> num_sep(
                body_toks(b)[j + 1],
            ),
        body_toks(b)[body_toks(b).len() - 1] == Tok::RBrace,
        body_toks(b).len() >= 5,
{
    let bt = body_toks(b);
    match b {
        BodyV::Init(m) => {
            let ar = arr_toks(m.node_ids);
            let la = ar.len() as int;
            lemma_arr_elem_kinds(m.node_ids);
            assert(la >= 2);
            assert forall|j: int|
                0 <= j < la implies canonical_tok(#[trigger] ar[j]) && !(ar[j] is NumTok) by {
                if 0 < j < la - 1 {
                    assert(ar[j] == arr_elem_toks(m.node_ids)[j - 1]);
                }
            }
            assert(bt.len() == 16 + la);
            assert forall|j: int| 0 <= j < bt.len() implies canonical_tok(
                #[trigger] bt[j],
            ) by {
                if 15 <= j < 15 + la {
                    assert(bt[j] == ar[j - 15]);
                }
            }
            assert forall|j: int|
                0 <= j < bt.len() - 1 && (#[trigger] bt[j]) is NumTok implies num_sep(
                bt[j + 1],
            ) by {
                if 15 <= j < 15 + la {
                    assert(bt[j] == ar[j - 15]);
                } else if j < 15 {
                    assert(j == 7);
                }
            }
            assert(bt[bt.len() - 1] == Tok::RBrace);
        },
        BodyV::Topology(m) => {
            let ar = arr_toks(m.topology);
            let la = ar.len() as int;
            lemma_arr_elem_kinds(m.topology);
            assert(la >= 2);
            assert forall|j: int|
                0 <= j < la implies canonical_tok(#[trigger] ar[j]) && !(ar[j] is NumTok) by {
                if 0 < j < la - 1 {
                    assert(ar[j] == arr_elem_toks(m.topology)[j - 1]);
                }
            }
            assert(bt.len() == 12 + la);
            assert forall|j: int| 0 <= j < bt.len() implies canonical_tok(
                #[trigger] bt[j],
            ) by {
                if 11 <= j < 11 + la {
                    assert(bt[j] == ar[j - 11]);
                }
            }
            assert forall|j: int|
                0 <= j < bt.len() - 1 && (#[trigger] bt[j]) is NumTok implies num_sep(
                bt[j + 1],
            ) by {
                if 11 <= j < 11 + la {
                    assert(bt[j] == ar[j - 11]);
                } else if j < 11 {
                    assert(j == 7);
                }
            }
            assert(bt[bt.len() - 1] == Tok::RBrace);
        },
        BodyV::Error(_) => {
            assert forall|j: int|
                0 <= j < bt.len() - 1 && (#[trigger] bt[j]) is NumTok implies num_sep(
                bt[j + 1],
            ) by {
                assert(j == 7 || j == 11);
            }
        },
        BodyV::Unknown => {
        },
    }
}

/// The canonical tokens of an envelope are well formed.
#[verifier::rlimit(100)]
proof fn lemma_wf_msg(m: MessageV)
    ensures
        wf_toks(msg_toks(m)),
{
    let ts = msg_toks(m);
    let bt = body_toks(m.body);
    let bl = bt.len() as int;
    lemma_wf_body(m.body);
    assert(ts.len() == 12 + bl);
    assert forall|k: int| 0 <= k < ts.len() implies canonical_tok(ts[k]) by {
        if 11 <= k < 11 + bl {
            assert(ts[k] == bt[k - 11]);
        }
    }
    assert forall|k: int|
        0 <= k < ts.len() - 1 && (#[trigger] ts[k]) is NumTok implies num_sep(ts[k + 1]) by {
        if 11 <= k < 11 + bl {
            assert(ts[k] == bt[k - 11]);
            if k - 11 < bl - 1 {
                assert(ts[k + 1] == bt[k - 11 + 1]);
            } else {
                assert(bt[bl - 1] == Tok::RBrace);
            }
        }
    }
}

/// Round trip: decoding the canonical encoding of any envelope reproduces
/// the envelope, semantic field for semantic field. Together with the
/// contracts of [`encode`] and [`decode`], this says that
/// `decode(&encode(&e))` returns `Ok` with a value whose model equals `e`'s,
/// for every envelope `e`.
pub proof fn lemma_round_trip(m: MessageV)
    ensures
        spec_decode(spec_encode_msg(m)) == Ok::<MessageV, DecodeError>(m),
{
    lemma_encode_msg_render(m);
    lemma_wf_msg(m);
    let full = spec_encode_msg(m);
    assert(full.subrange(0, full.len() as int) =~= full);
    lemma_tokenize_render(full, 0, msg_toks(m));
    lemma_parse_canonical(m);
}

} // verus!
