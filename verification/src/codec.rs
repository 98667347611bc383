use vstd::prelude::*;

use crate::errors::TodoError;
use crate::outside::string_from_chars;
use crate::todo::{sorted_by_id, StoreView, Todo, TodoList, TodoView};

verus! {

// ---------------------------------------------------------------------------
// The persisted form of a store is one canonical JSON document:
//
//   {"tasks":{"<id>":{"description":"...","complete":false,
//    "created_at":"...","completed_at":null},...},"next_id":<n>}
//
// with entries in ascending identifier order, no whitespace, numbers in
// plain decimal, and strings escaping the quote, the backslash and the
// three common control characters. The spec functions below define the
// encoding; `to_json` produces exactly it and `from_json` accepts exactly
// it (and rejects everything else as `MalformedData`).
// ---------------------------------------------------------------------------

/// The decimal value of a digit character, 10 for any other character.
pub open spec fn digit_val(c: char) -> int {
    if c == '0' {
        0
    } else if c == '1' {
        1
    } else if c == '2' {
        2
    } else if c == '3' {
        3
    } else if c == '4' {
        4
    } else if c == '5' {
        5
    } else if c == '6' {
        6
    } else if c == '7' {
        7
    } else if c == '8' {
        8
    } else if c == '9' {
        9
    } else {
        10
    }
}

/// Whether `c` is a decimal digit.
pub open spec fn is_digit(c: char) -> bool {
    digit_val(c) < 10
}

/// The digit character for a value below ten.
pub open spec fn digit_char(d: int) -> char {
    if d == 0 {
        '0'
    } else if d == 1 {
        '1'
    } else if d == 2 {
        '2'
    } else if d == 3 {
        '3'
    } else if d == 4 {
        '4'
    } else if d == 5 {
        '5'
    } else if d == 6 {
        '6'
    } else if d == 7 {
        '7'
    } else if d == 8 {
        '8'
    } else {
        '9'
    }
}

/// Plain decimal digits of a non-negative number, most significant first.
pub open spec fn enc_nat(n: int) -> Seq<char>
    decreases n,
{
    if n < 10 {
        seq![digit_char(n)]
    } else {
        enc_nat(n / 10).push(digit_char(n % 10))
    }
}

/// The escape of one character inside a JSON string.
pub open spec fn esc_char(c: char) -> Seq<char> {
    if c == '"' {
        seq!['\\', '"']
    } else if c == '\\' {
        seq!['\\', '\\']
    } else if c == '\n' {
        seq!['\\', 'n']
    } else if c == '\t' {
        seq!['\\', 't']
    } else if c == '\r' {
        seq!['\\', 'r']
    } else {
        seq![c]
    }
}

/// The escaped body of a JSON string.
pub open spec fn esc(s: Seq<char>) -> Seq<char>
    decreases s.len(),
{
    if s.len() == 0 {
        Seq::empty()
    } else {
        esc(s.drop_last()) + esc_char(s.last())
    }
}

/// A quoted, escaped JSON string.
pub open spec fn enc_string(s: Seq<char>) -> Seq<char> {
    seq!['"'] + esc(s) + seq!['"']
}

/// A JSON boolean.
pub open spec fn enc_bool(b: bool) -> Seq<char> {
    if b {
        "true"@
    } else {
        "false"@
    }
}

/// A nullable JSON string.
pub open spec fn enc_opt_string(o: Option<Seq<char>>) -> Seq<char> {
    match o {
        None => "null"@,
        Some(s) => enc_string(s),
    }
}

/// One task as a JSON object.
pub open spec fn enc_task(t: TodoView) -> Seq<char> {
    "{\"description\":"@ + enc_string(t.description) + ",\"complete\":"@ + enc_bool(t.complete)
        + ",\"created_at\":"@ + enc_string(t.created_at) + ",\"completed_at\":"@ + enc_opt_string(
        t.completed_at,
    ) + "}"@
}

/// One identifier-to-task member of the tasks object.
pub open spec fn enc_entry(e: (usize, TodoView)) -> Seq<char> {
    seq!['"'] + enc_nat(e.0 as int) + "\":"@ + enc_task(e.1)
}

/// The comma-separated members of the tasks object.
pub open spec fn enc_entries(ts: Seq<(usize, TodoView)>) -> Seq<char>
    decreases ts.len(),
{
    if ts.len() == 0 {
        Seq::empty()
    } else if ts.len() == 1 {
        enc_entry(ts[0])
    } else {
        enc_entries(ts.drop_last()) + seq![','] + enc_entry(ts.last())
    }
}

/// The whole store as a JSON document.
pub open spec fn enc_store(v: StoreView) -> Seq<char> {
    "{\"tasks\":{"@ + ((enc_entries(v.tasks) + seq!['}']) + (",\"next_id\":"@ + (enc_nat(
        v.next_id as int,
    ) + seq!['}'])))
}

// ---------------------------------------------------------------------------
// Encoder
// ---------------------------------------------------------------------------

/// Append the characters of `s` to `out`.
fn push_str_chars(out: &mut Vec<char>, s: &str)
    ensures
        final(out)@ == old(out)@ + s@,
{
    let n = s.unicode_len();
    let mut i: usize = 0;
    while i < n
        invariant
            n == s@.len(),
            i <= n,
            out@ == old(out)@ + s@.take(i as int),
        decreases n - i,
    {
        let c = s.get_char(i);
        out.push(c);
        proof {
            assert(s@.take(i + 1).drop_last() =~= s@.take(i as int));
            assert(out@ =~= old(out)@ + s@.take(i + 1));
        }
        i = i + 1;
    }
    proof {
        assert(s@.take(n as int) =~= s@);
    }
}

/// The digit character of a value below ten.
fn digit_to_char(d: usize) -> (c: char)
    requires
        d < 10,
    ensures
        c == digit_char(d as int),
{
    match d {
        0 => '0',
        1 => '1',
        2 => '2',
        3 => '3',
        4 => '4',
        5 => '5',
        6 => '6',
        7 => '7',
        8 => '8',
        _ => '9',
    }
}

/// Append the decimal digits of `n` to `out`.
fn push_nat(out: &mut Vec<char>, n: usize)
    ensures
        final(out)@ == old(out)@ + enc_nat(n as int),
    decreases n,
{
    if n < 10 {
        out.push(digit_to_char(n));
        proof {
            assert(out@ =~= old(out)@ + enc_nat(n as int));
        }
    } else {
        push_nat(out, n / 10);
        out.push(digit_to_char(n % 10));
        proof {
            assert(out@ =~= old(out)@ + enc_nat(n as int));
        }
    }
}

/// Append the escaped body of `s` to `out`.
fn push_esc(out: &mut Vec<char>, s: &str)
    ensures
        final(out)@ == old(out)@ + esc(s@),
{
    let n = s.unicode_len();
    let mut i: usize = 0;
    while i < n
        invariant
            n == s@.len(),
            i <= n,
            out@ == old(out)@ + esc(s@.take(i as int)),
        decreases n - i,
    {
        let c = s.get_char(i);
        if c == '"' {
            out.push('\\');
            out.push('"');
        } else if c == '\\' {
            out.push('\\');
            out.push('\\');
        } else if c == '\n' {
            out.push('\\');
            out.push('n');
        } else if c == '\t' {
            out.push('\\');
            out.push('t');
        } else if c == '\r' {
            out.push('\\');
            out.push('r');
        } else {
            out.push(c);
        }
        proof {
            assert(s@.take(i + 1).drop_last() =~= s@.take(i as int));
            assert(s@.take(i + 1).last() == s@[i as int]);
            assert(esc(s@.take(i + 1)) == esc(s@.take(i as int)) + esc_char(s@[i as int]));
            assert(out@ =~= old(out)@ + esc(s@.take(i + 1)));
        }
        i = i + 1;
    }
    proof {
        assert(s@.take(n as int) =~= s@);
    }
}

/// Append a quoted, escaped JSON string to `out`.
fn push_string(out: &mut Vec<char>, s: &str)
    ensures
        final(out)@ == old(out)@ + enc_string(s@),
{
    out.push('"');
    push_esc(out, s);
    out.push('"');
    proof {
        assert(out@ =~= old(out)@ + enc_string(s@));
    }
}

/// Append one task object to `out`.
fn push_task(out: &mut Vec<char>, t: &Todo)
    ensures
        final(out)@ == old(out)@ + enc_task(t@),
{
    push_str_chars(out, "{\"description\":");
    push_string(out, t.description.as_str());
    push_str_chars(out, ",\"complete\":");
    if t.complete {
        push_str_chars(out, "true");
    } else {
        push_str_chars(out, "false");
    }
    push_str_chars(out, ",\"created_at\":");
    push_string(out, t.created_at.as_str());
    push_str_chars(out, ",\"completed_at\":");
    match &t.completed_at {
        None => push_str_chars(out, "null"),
        Some(s) => push_string(out, s.as_str()),
    }
    push_str_chars(out, "}");
    proof {
        assert(out@ =~= old(out)@ + enc_task(t@));
    }
}

/// Append one `"id":task` member to `out`.
fn push_entry(out: &mut Vec<char>, id: usize, t: &Todo)
    ensures
        final(out)@ == old(out)@ + enc_entry((id, t@)),
{
    out.push('"');
    push_nat(out, id);
    push_str_chars(out, "\":");
    push_task(out, t);
    proof {
        assert(out@ =~= old(out)@ + enc_entry((id, t@)));
    }
}

impl TodoList {
    /// Serialize the store into its canonical JSON document.
    pub fn to_json(&self) -> (r: String)
        ensures
            r@ == enc_store(self@),
    {
        let mut out: Vec<char> = Vec::new();
        push_str_chars(&mut out, "{\"tasks\":{");
        let n = self.todos.len();
        let mut i: usize = 0;
        proof {
            assert(out@ =~= Seq::<char>::empty() + "{\"tasks\":{"@);
        }
        while i < n
            invariant
                n == self.todos.len(),
                i <= n,
                out@ == "{\"tasks\":{"@ + enc_entries(self@.tasks.take(i as int)),
            decreases n - i,
        {
            if i > 0 {
                push_str_chars(&mut out, ",");
            }
            push_entry(&mut out, self.todos[i].0, &self.todos[i].1);
            proof {
                let ts = self@.tasks;
                assert(ts[i as int] == (self.todos@[i as int].0, self.todos@[i as int].1@));
                assert(ts.take(i + 1).drop_last() =~= ts.take(i as int));
                assert(ts.take(i + 1).last() == ts[i as int]);
                if i == 0 {
                    assert(enc_entries(ts.take(1)) == enc_entry(ts[0]));
                    assert(out@ =~= "{\"tasks\":{"@ + enc_entries(ts.take(i + 1)));
                } else {
                    assert(enc_entries(ts.take(i + 1)) == enc_entries(ts.take(i as int)) + seq![
                        ',',
                    ] + enc_entry(ts[i as int]));
                    reveal_strlit(",");
                    assert(","@ =~= seq![',']);
                    assert(out@ =~= "{\"tasks\":{"@ + enc_entries(ts.take(i + 1)));
                }
            }
            i = i + 1;
        }
        proof {
            assert(self@.tasks.take(n as int) =~= self@.tasks);
        }
        push_str_chars(&mut out, "},\"next_id\":");
        push_nat(&mut out, self.next_id);
        push_str_chars(&mut out, "}");
        proof {
            reveal_strlit("},\"next_id\":");
            reveal_strlit(",\"next_id\":");
            reveal_strlit("}");
            assert(out@ =~= enc_store(self@));
        }
        string_from_chars(&out)
    }
}

/// The decision behind initializing a store at a location: if a store
/// file already exists there, fail with `AlreadyExists` and write
/// nothing; otherwise the contents to write are the encoding of the
/// empty store with its counter at the initial value.
pub fn initialize_plan(already_exists: bool) -> (r: Result<String, TodoError>)
    ensures
        (match r {
            Ok(s) => !already_exists && s@ == enc_store(
                StoreView { tasks: Seq::empty(), next_id: 1 },
            ),
            Err(e) => already_exists && e == TodoError::AlreadyExists,
        }),
{
    if already_exists {
        Err(TodoError::AlreadyExists)
    } else {
        let fresh = TodoList::new();
        Ok(fresh.to_json())
    }
}

// ---------------------------------------------------------------------------
// Decoder specification: what a well-formed document means, position by
// position. `dec_store` is the whole meaning of `from_json`.
// ---------------------------------------------------------------------------

/// Match the exact literal `lit` at `pos`; the position after it.
pub open spec fn dec_lit(s: Seq<char>, pos: int, lit: Seq<char>) -> Option<int> {
    if 0 <= pos && pos + lit.len() <= s.len() && s.subrange(pos, pos + lit.len() as int) == lit {
        Some(pos + lit.len() as int)
    } else {
        None
    }
}

/// Read a string body up to and including its closing quote, undoing the
/// escapes the encoder produces.
pub open spec fn dec_str(s: Seq<char>, pos: int) -> Option<(Seq<char>, int)>
    decreases s.len() - pos,
{
    if pos < 0 || pos >= s.len() {
        None
    } else if s[pos] == '"' {
        Some((Seq::empty(), pos + 1))
    } else if s[pos] == '\\' {
        if pos + 1 >= s.len() {
            None
        } else {
            let e = s[pos + 1];
            let c = if e == '"' {
                Some('"')
            } else if e == '\\' {
                Some('\\')
            } else if e == 'n' {
                Some('\n')
            } else if e == 't' {
                Some('\t')
            } else if e == 'r' {
                Some('\r')
            } else {
                None
            };
            match c {
                None => None,
                Some(ch) => match dec_str(s, pos + 2) {
                    None => None,
                    Some((rest, q)) => Some((seq![ch] + rest, q)),
                },
            }
        }
    } else {
        match dec_str(s, pos + 1) {
            None => None,
            Some((rest, q)) => Some((seq![s[pos]] + rest, q)),
        }
    }
}

/// An opening quote followed by a string body.
pub open spec fn dec_qstring(s: Seq<char>, pos: int) -> Option<(Seq<char>, int)> {
    match dec_lit(s, pos, "\""@) {
        None => None,
        Some(q) => dec_str(s, q),
    }
}

/// Fold a run of digits into a value, rejecting values that do not fit.
pub open spec fn dec_digits(s: Seq<char>, pos: int, acc: int) -> Option<(int, int)>
    decreases s.len() - pos,
{
    if pos < 0 {
        None
    } else if pos >= s.len() || !is_digit(s[pos]) {
        Some((acc, pos))
    } else if acc * 10 + digit_val(s[pos]) > usize::MAX as int {
        None
    } else {
        dec_digits(s, pos + 1, acc * 10 + digit_val(s[pos]))
    }
}

/// A canonical decimal number: at least one digit, no leading zero.
pub open spec fn dec_nat(s: Seq<char>, pos: int) -> Option<(usize, int)> {
    if 0 <= pos && pos < s.len() && is_digit(s[pos]) && (s[pos] == '0' ==> !(pos + 1 < s.len()
        && is_digit(s[pos + 1]))) {
        match dec_digits(s, pos, 0) {
            None => None,
            Some((v, q)) => Some((v as usize, q)),
        }
    } else {
        None
    }
}

/// A JSON boolean.
pub open spec fn dec_bool(s: Seq<char>, pos: int) -> Option<(bool, int)> {
    match dec_lit(s, pos, "true"@) {
        Some(q) => Some((true, q)),
        None => match dec_lit(s, pos, "false"@) {
            Some(q) => Some((false, q)),
            None => None,
        },
    }
}

/// `null` or a quoted string.
pub open spec fn dec_opt_string(s: Seq<char>, pos: int) -> Option<(Option<Seq<char>>, int)> {
    match dec_lit(s, pos, "null"@) {
        Some(q) => Some((None, q)),
        None => match dec_qstring(s, pos) {
            Some((v, q)) => Some((Some(v), q)),
            None => None,
        },
    }
}

/// One task object.
pub open spec fn dec_task(s: Seq<char>, pos: int) -> Option<(TodoView, int)> {
    match dec_lit(s, pos, "{\"description\":"@) {
        None => None,
        Some(p1) => match dec_qstring(s, p1) {
            None => None,
            Some((d, p2)) => match dec_lit(s, p2, ",\"complete\":"@) {
                None => None,
                Some(p3) => match dec_bool(s, p3) {
                    None => None,
                    Some((b, p4)) => match dec_lit(s, p4, ",\"created_at\":"@) {
                        None => None,
                        Some(p5) => match dec_qstring(s, p5) {
                            None => None,
                            Some((ca, p6)) => match dec_lit(s, p6, ",\"completed_at\":"@) {
                                None => None,
                                Some(p7) => match dec_opt_string(s, p7) {
                                    None => None,
                                    Some((co, p8)) => match dec_lit(s, p8, "}"@) {
                                        None => None,
                                        Some(p9) => Some(
                                            (
                                                TodoView {
                                                    description: d,
                                                    complete: b,
                                                    created_at: ca,
                                                    completed_at: co,
                                                },
                                                p9,
                                            ),
                                        ),
                                    },
                                },
                            },
                        },
                    },
                },
            },
        },
    }
}

/// One `"id":task` member.
pub open spec fn dec_entry(s: Seq<char>, pos: int) -> Option<((usize, TodoView), int)> {
    match dec_lit(s, pos, "\""@) {
        None => None,
        Some(p1) => match dec_nat(s, p1) {
            None => None,
            Some((id, p2)) => match dec_lit(s, p2, "\":"@) {
                None => None,
                Some(p3) => match dec_task(s, p3) {
                    None => None,
                    Some((t, p4)) => Some(((id, t), p4)),
                },
            },
        },
    }
}

/// The members of the tasks object, up to and including the closing
/// brace. `first` tells whether a comma must precede the next member.
pub open spec fn dec_entries(s: Seq<char>, pos: int, first: bool) -> Option<
    (Seq<(usize, TodoView)>, int),
>
    decreases s.len() - pos,
{
    if pos < 0 || pos >= s.len() {
        None
    } else if s[pos] == '}' {
        Some((Seq::empty(), pos + 1))
    } else {
        let start = if first {
            pos
        } else if s[pos] == ',' {
            pos + 1
        } else {
            -1
        };
        if start < 0 {
            None
        } else {
            match dec_entry(s, start) {
                None => None,
                Some((e, q)) => if q <= pos || q > s.len() {
                    None
                } else {
                    match dec_entries(s, q, false) {
                        None => None,
                        Some((rest, r)) => Some((seq![e] + rest, r)),
                    }
                },
            }
        }
    }
}

/// The meaning of a persisted document: the store it denotes, or nothing
/// if it is not the canonical encoding of a well-formed store.
pub open spec fn dec_store(s: Seq<char>) -> Option<StoreView> {
    match dec_lit(s, 0, "{\"tasks\":{"@) {
        None => None,
        Some(p1) => match dec_entries(s, p1, true) {
            None => None,
            Some((ts, p2)) => match dec_lit(s, p2, ",\"next_id\":"@) {
                None => None,
                Some(p3) => match dec_nat(s, p3) {
                    None => None,
                    Some((nid, p4)) => match dec_lit(s, p4, "}"@) {
                        None => None,
                        Some(p5) => {
                            let v = StoreView { tasks: ts, next_id: nid };
                            if p5 == s.len() && v.wf() {
                                Some(v)
                            } else {
                                None
                            }
                        },
                    },
                },
            },
        },
    }
}

// ---------------------------------------------------------------------------
// Parser
// ---------------------------------------------------------------------------

/// The characters of a string, in order.
fn chars_vec(s: &str) -> (r: Vec<char>)
    ensures
        r@ == s@,
{
    let n = s.unicode_len();
    let mut r: Vec<char> = Vec::new();
    let mut i: usize = 0;
    proof {
        assert(r@ =~= s@.take(0));
    }
    while i < n
        invariant
            n == s@.len(),
            i <= n,
            r@ == s@.take(i as int),
        decreases n - i,
    {
        r.push(s.get_char(i));
        proof {
            assert(r@ =~= s@.take(i + 1));
        }
        i = i + 1;
    }
    proof {
        assert(s@.take(n as int) =~= s@);
    }
    r
}

/// The decimal value of a digit character, 10 for any other.
fn digit_of(c: char) -> (r: usize)
    ensures
        r == digit_val(c),
{
    if c == '0' {
        0
    } else if c == '1' {
        1
    } else if c == '2' {
        2
    } else if c == '3' {
        3
    } else if c == '4' {
        4
    } else if c == '5' {
        5
    } else if c == '6' {
        6
    } else if c == '7' {
        7
    } else if c == '8' {
        8
    } else if c == '9' {
        9
    } else {
        10
    }
}

/// Match the exact literal `lit` at `pos`.
fn expect_lit(s: &Vec<char>, pos: usize, lit: &str) -> (r: Option<usize>)
    ensures
        (match r {
            Some(q) => dec_lit(s@, pos as int, lit@) == Some(q as int) && q <= s@.len(),
            None => dec_lit(s@, pos as int, lit@) is None,
        }),
{
    let n = lit.unicode_len();
    let slen = s.len();
    if pos > slen || n > slen - pos {
        return None;
    }
    let mut i: usize = 0;
    while i < n
        invariant
            n == lit@.len(),
            i <= n,
            slen == s@.len(),
            pos + n <= slen,
            forall|k: int| 0 <= k < i ==> s@[pos + k] == lit@[k],
        decreases n - i,
    {
        if s[pos + i] != lit.get_char(i) {
            proof {
                assert(dec_lit(s@, pos as int, lit@) is None) by {
                    if s@.subrange(pos as int, pos + lit@.len() as int) == lit@ {
                        assert(s@.subrange(pos as int, pos + lit@.len() as int)[i as int] == s@[pos
                            + i]);
                    }
                }
            }
            return None;
        }
        i = i + 1;
    }
    proof {
        assert(s@.subrange(pos as int, pos + lit@.len() as int) =~= lit@);
    }
    Some(pos + n)
}

/// Read a string body up to and including its closing quote.
fn parse_str(s: &Vec<char>, pos: usize) -> (r: Option<(Vec<char>, usize)>)
    ensures
        (match r {
            Some(p) => dec_str(s@, pos as int) == Some((p.0@, p.1 as int)) && p.1 <= s@.len()
                && pos < p.1,
            None => dec_str(s@, pos as int) is None,
        }),
    decreases s@.len() - pos,
{
    if pos >= s.len() {
        return None;
    }
    let c = s[pos];
    if c == '"' {
        let v: Vec<char> = Vec::new();
        proof {
            assert(v@ =~= Seq::<char>::empty());
        }
        return Some((v, pos + 1));
    }
    if c == '\\' {
        if pos + 1 >= s.len() {
            return None;
        }
        let e = s[pos + 1];
        let ch: char = if e == '"' {
            '"'
        } else if e == '\\' {
            '\\'
        } else if e == 'n' {
            '\n'
        } else if e == 't' {
            '\t'
        } else if e == 'r' {
            '\r'
        } else {
            return None;
        };
        match parse_str(s, pos + 2) {
            None => return None,
            Some((mut rest, q)) => {
                let ghost restv = rest@;
                rest.insert(0, ch);
                proof {
                    assert(rest@ =~= seq![ch] + restv);
                }
                return Some((rest, q));
            },
        }
    }
    match parse_str(s, pos + 1) {
        None => None,
        Some((mut rest, q)) => {
            let ghost restv = rest@;
            rest.insert(0, c);
            proof {
                assert(rest@ =~= seq![c] + restv);
            }
            Some((rest, q))
        },
    }
}

/// An opening quote followed by a string body.
fn parse_qstring(s: &Vec<char>, pos: usize) -> (r: Option<(Vec<char>, usize)>)
    ensures
        (match r {
            Some(p) => dec_qstring(s@, pos as int) == Some((p.0@, p.1 as int)) && p.1 <= s@.len()
                && pos < p.1,
            None => dec_qstring(s@, pos as int) is None,
        }),
{
    match expect_lit(s, pos, "\"") {
        None => None,
        Some(q) => parse_str(s, q),
    }
}

/// A canonical decimal number.
fn parse_nat(s: &Vec<char>, pos: usize) -> (r: Option<(usize, usize)>)
    ensures
        (match r {
            Some(p) => dec_nat(s@, pos as int) == Some((p.0, p.1 as int)) && p.1 <= s@.len()
                && pos <= p.1,
            None => dec_nat(s@, pos as int) is None,
        }),
{
    if pos >= s.len() {
        return None;
    }
    if digit_of(s[pos]) >= 10 {
        return None;
    }
    if s[pos] == '0' && pos + 1 < s.len() && digit_of(s[pos + 1]) < 10 {
        return None;
    }
    let mut acc: usize = 0;
    let mut cur: usize = pos;
    while cur < s.len() && digit_of(s[cur]) < 10
        invariant
            pos <= cur <= s@.len(),
            dec_digits(s@, pos as int, 0) == dec_digits(s@, cur as int, acc as int),
        decreases s@.len() - cur,
    {
        let d = digit_of(s[cur]);
        let acc10 = match acc.checked_mul(10) {
            Some(x) => x,
            None => {
                proof {
                    assert(acc * 10 + digit_val(s@[cur as int]) > usize::MAX as int);
                }
                return None;
            },
        };
        let acc2 = match acc10.checked_add(d) {
            Some(x) => x,
            None => {
                proof {
                    assert(acc * 10 + digit_val(s@[cur as int]) > usize::MAX as int);
                }
                return None;
            },
        };
        acc = acc2;
        cur = cur + 1;
    }
    Some((acc, cur))
}

/// A JSON boolean.
fn parse_bool(s: &Vec<char>, pos: usize) -> (r: Option<(bool, usize)>)
    ensures
        (match r {
            Some(p) => dec_bool(s@, pos as int) == Some((p.0, p.1 as int)) && p.1 <= s@.len(),
            None => dec_bool(s@, pos as int) is None,
        }),
{
    match expect_lit(s, pos, "true") {
        Some(q) => Some((true, q)),
        None => match expect_lit(s, pos, "false") {
            Some(q) => Some((false, q)),
            None => None,
        },
    }
}

/// `null` or a quoted string.
fn parse_opt_string(s: &Vec<char>, pos: usize) -> (r: Option<(Option<Vec<char>>, usize)>)
    ensures
        (match r {
            Some(p) => dec_opt_string(s@, pos as int) == Some(
                (
                    match p.0 {
                        None => None,
                        Some(v) => Some(v@),
                    },
                    p.1 as int,
                ),
            ) && p.1 <= s@.len() && pos <= p.1,
            None => dec_opt_string(s@, pos as int) is None,
        }),
{
    match expect_lit(s, pos, "null") {
        Some(q) => Some((None, q)),
        None => match parse_qstring(s, pos) {
            Some((v, q)) => Some((Some(v), q)),
            None => None,
        },
    }
}

/// One task object.
fn parse_task(s: &Vec<char>, pos: usize) -> (r: Option<(Todo, usize)>)
    ensures
        (match r {
            Some(p) => dec_task(s@, pos as int) == Some((p.0@, p.1 as int)) && p.1 <= s@.len()
                && pos <= p.1,
            None => dec_task(s@, pos as int) is None,
        }),
{
    let p1 = match expect_lit(s, pos, "{\"description\":") {
        Some(q) => q,
        None => {
            return None;
        },
    };
    let (d, p2) = match parse_qstring(s, p1) {
        Some(p) => p,
        None => {
            return None;
        },
    };
    let p3 = match expect_lit(s, p2, ",\"complete\":") {
        Some(q) => q,
        None => {
            return None;
        },
    };
    let (b, p4) = match parse_bool(s, p3) {
        Some(p) => p,
        None => {
            return None;
        },
    };
    let p5 = match expect_lit(s, p4, ",\"created_at\":") {
        Some(q) => q,
        None => {
            return None;
        },
    };
    let (ca, p6) = match parse_qstring(s, p5) {
        Some(p) => p,
        None => {
            return None;
        },
    };
    let p7 = match expect_lit(s, p6, ",\"completed_at\":") {
        Some(q) => q,
        None => {
            return None;
        },
    };
    let (co, p8) = match parse_opt_string(s, p7) {
        Some(p) => p,
        None => {
            return None;
        },
    };
    let p9 = match expect_lit(s, p8, "}") {
        Some(q) => q,
        None => {
            return None;
        },
    };
    let todo = Todo {
        description: string_from_chars(&d),
        complete: b,
        created_at: string_from_chars(&ca),
        completed_at: match &co {
            None => None,
            Some(v) => Some(string_from_chars(v)),
        },
    };
    Some((todo, p9))
}

/// One `"id":task` member.
fn parse_entry(s: &Vec<char>, pos: usize) -> (r: Option<((usize, Todo), usize)>)
    ensures
        (match r {
            Some(p) => dec_entry(s@, pos as int) == Some(((p.0.0, p.0.1@), p.1 as int)) && p.1
                <= s@.len() && pos < p.1,
            None => dec_entry(s@, pos as int) is None,
        }),
{
    let p1 = match expect_lit(s, pos, "\"") {
        Some(q) => q,
        None => {
            return None;
        },
    };
    let (id, p2) = match parse_nat(s, p1) {
        Some(p) => p,
        None => {
            return None;
        },
    };
    let p3 = match expect_lit(s, p2, "\":") {
        Some(q) => q,
        None => {
            return None;
        },
    };
    let (t, p4) = match parse_task(s, p3) {
        Some(p) => p,
        None => {
            return None;
        },
    };
    proof {
        // the opening quote is one character long, so the entry advances
        reveal_strlit("\"");
    }
    Some(((id, t), p4))
}

/// The members of the tasks object, up to the closing brace.
fn parse_entries(s: &Vec<char>, pos: usize, first: bool) -> (r: Option<(Vec<(usize, Todo)>, usize)>)
    ensures
        (match r {
            Some(p) => dec_entries(s@, pos as int, first) == Some(
                (p.0@.map_values(|e: (usize, Todo)| (e.0, e.1@)), p.1 as int),
            ) && p.1 <= s@.len(),
            None => dec_entries(s@, pos as int, first) is None,
        }),
    decreases s@.len() - pos,
{
    if pos >= s.len() {
        return None;
    }
    if s[pos] == '}' {
        let v: Vec<(usize, Todo)> = Vec::new();
        proof {
            assert(v@.map_values(|e: (usize, Todo)| (e.0, e.1@)) =~= Seq::<
                (usize, TodoView),
            >::empty());
        }
        return Some((v, pos + 1));
    }
    let start: usize = if first {
        pos
    } else if s[pos] == ',' {
        pos + 1
    } else {
        return None;
    };
    let (e, q) = match parse_entry(s, start) {
        Some(p) => p,
        None => {
            return None;
        },
    };
    if q <= pos {
        return None;
    }
    match parse_entries(s, q, false) {
        None => None,
        Some((mut rest, rq)) => {
            let ghost reste = rest@.map_values(|e: (usize, Todo)| (e.0, e.1@));
            let ghost ev = (e.0, e.1@);
            rest.insert(0, e);
            proof {
                assert(rest@.map_values(|e: (usize, Todo)| (e.0, e.1@)) =~= seq![ev] + reste);
            }
            Some((rest, rq))
        },
    }
}

// ---------------------------------------------------------------------------
// Round trip: decoding an encoded store yields the store back. The
// lemmas walk the grammar, one production at a time, each stating that
// the decoder consumes exactly the encoder's output.
// ---------------------------------------------------------------------------

/// `frag` occurs in `s` starting at `pos`.
pub open spec fn has_at(s: Seq<char>, pos: int, frag: Seq<char>) -> bool {
    0 <= pos && pos + frag.len() <= s.len() && s.subrange(pos, pos + frag.len() as int) == frag
}

proof fn lemma_has_at_index(s: Seq<char>, pos: int, frag: Seq<char>, k: int)
    requires
        has_at(s, pos, frag),
        0 <= k < frag.len(),
    ensures
        s[pos + k] == frag[k],
{
    assert(s.subrange(pos, pos + frag.len() as int)[k] == s[pos + k]);
}

proof fn lemma_has_at_split(s: Seq<char>, pos: int, a: Seq<char>, b: Seq<char>)
    requires
        has_at(s, pos, a + b),
    ensures
        has_at(s, pos, a),
        has_at(s, pos + a.len(), b),
{
    let ab = a + b;
    assert(s.subrange(pos, pos + a.len() as int) =~= a) by {
        assert forall|k: int| 0 <= k < a.len() implies s.subrange(pos, pos + a.len() as int)[k]
            == a[k] by {
            assert(s.subrange(pos, pos + ab.len() as int)[k] == s[pos + k]);
            assert(ab[k] == a[k]);
        }
    }
    assert(s.subrange(pos + a.len(), pos + a.len() + b.len() as int) =~= b) by {
        assert forall|k: int| 0 <= k < b.len() implies s.subrange(
            pos + a.len(),
            pos + a.len() + b.len() as int,
        )[k] == b[k] by {
            assert(s.subrange(pos, pos + ab.len() as int)[a.len() + k] == s[pos + a.len() + k]);
            assert(ab[a.len() + k] == b[k]);
        }
    }
}

proof fn lemma_dec_lit_at(s: Seq<char>, pos: int, lit: Seq<char>)
    requires
        has_at(s, pos, lit),
    ensures
        dec_lit(s, pos, lit) == Some(pos + lit.len() as int),
{
}

proof fn lemma_dec_lit_mismatch(s: Seq<char>, pos: int, a: Seq<char>, lit: Seq<char>)
    requires
        has_at(s, pos, a),
        a.len() > 0,
        lit.len() > 0,
        a[0] != lit[0],
    ensures
        dec_lit(s, pos, lit) is None,
{
    if dec_lit(s, pos, lit) is Some {
        assert(s.subrange(pos, pos + lit.len() as int)[0] == s[pos]);
        lemma_has_at_index(s, pos, a, 0);
    }
}

proof fn lemma_esc_first(v: Seq<char>)
    requires
        v.len() > 0,
    ensures
        esc(v) == esc_char(v[0]) + esc(v.drop_first()),
    decreases v.len(),
{
    if v.len() == 1 {
        assert(v.drop_last() =~= Seq::<char>::empty());
        assert(v.drop_first() =~= Seq::<char>::empty());
        assert(esc(v) =~= esc_char(v[0]) + esc(v.drop_first()));
    } else {
        let w = v.drop_last();
        lemma_esc_first(w);
        assert(w[0] == v[0]);
        assert(v.drop_first().drop_last() =~= w.drop_first());
        assert(v.drop_first().last() == v.last());
        assert(esc(v.drop_first()) == esc(w.drop_first()) + esc_char(v.last()));
        assert(esc(v) =~= esc_char(v[0]) + esc(v.drop_first()));
    }
}

proof fn lemma_dec_str_enc(v: Seq<char>, s: Seq<char>, pos: int)
    requires
        has_at(s, pos, esc(v) + seq!['"']),
    ensures
        dec_str(s, pos) == Some((v, pos + esc(v).len() + 1)),
    decreases v.len(),
{
    if v.len() == 0 {
        assert(esc(v) =~= Seq::<char>::empty());
        assert((esc(v) + seq!['"'])[0] == '"');
        lemma_has_at_index(s, pos, esc(v) + seq!['"'], 0);
        assert(s[pos] == '"');
        assert(v =~= Seq::<char>::empty());
    } else {
        lemma_esc_first(v);
        let c = v[0];
        let ec = esc_char(c);
        let tail = esc(v.drop_first()) + seq!['"'];
        assert(esc(v) + seq!['"'] =~= ec + tail);
        lemma_has_at_split(s, pos, ec, tail);
        lemma_dec_str_enc(v.drop_first(), s, pos + ec.len());
        assert(seq![c] + v.drop_first() =~= v);
        if c == '"' || c == '\\' || c == '\n' || c == '\t' || c == '\r' {
            assert(ec.len() == 2);
            lemma_has_at_index(s, pos, ec, 0);
            lemma_has_at_index(s, pos, ec, 1);
            assert(s[pos] == '\\');
            assert(s[pos + 1] == ec[1]);
        } else {
            assert(ec.len() == 1);
            lemma_has_at_index(s, pos, ec, 0);
            assert(s[pos] == c);
            assert(c != '"' && c != '\\');
        }
    }
}

proof fn lemma_dec_qstring_enc(v: Seq<char>, s: Seq<char>, pos: int)
    requires
        has_at(s, pos, enc_string(v)),
    ensures
        dec_qstring(s, pos) == Some((v, pos + enc_string(v).len())),
{
    reveal_strlit("\"");
    assert(enc_string(v) =~= "\""@ + (esc(v) + seq!['"']));
    lemma_has_at_split(s, pos, "\""@, esc(v) + seq!['"']);
    lemma_dec_lit_at(s, pos, "\""@);
    lemma_dec_str_enc(v, s, pos + 1);
}

/// Every character of `ds` is a digit.
pub open spec fn all_digits(ds: Seq<char>) -> bool {
    forall|k: int| 0 <= k < ds.len() ==> is_digit(#[trigger] ds[k])
}

/// The value of a digit run read left to right onto `acc`.
pub open spec fn fold_digits(acc: int, ds: Seq<char>) -> int
    decreases ds.len(),
{
    if ds.len() == 0 {
        acc
    } else {
        fold_digits(acc * 10 + digit_val(ds[0]), ds.drop_first())
    }
}

proof fn lemma_fold_mono(acc: int, ds: Seq<char>)
    requires
        acc >= 0,
    ensures
        fold_digits(acc, ds) >= acc,
    decreases ds.len(),
{
    if ds.len() > 0 {
        let acc2 = acc * 10 + digit_val(ds[0]);
        assert(digit_val(ds[0]) >= 0);
        assert(acc2 >= acc);
        lemma_fold_mono(acc2, ds.drop_first());
    }
}

proof fn lemma_fold_snoc(acc: int, ds: Seq<char>, c: char)
    ensures
        fold_digits(acc, ds.push(c)) == fold_digits(acc, ds) * 10 + digit_val(c),
    decreases ds.len(),
{
    if ds.len() == 0 {
        assert(ds.push(c)[0] == c);
        assert(ds.push(c).drop_first() =~= Seq::<char>::empty());
        assert(fold_digits(acc * 10 + digit_val(c), Seq::<char>::empty()) == acc * 10 + digit_val(
            c,
        ));
    } else {
        assert(ds.push(c)[0] == ds[0]);
        assert(ds.push(c).drop_first() =~= ds.drop_first().push(c));
        lemma_fold_snoc(acc * 10 + digit_val(ds[0]), ds.drop_first(), c);
    }
}

proof fn lemma_enc_nat_props(n: int)
    requires
        n >= 0,
    ensures
        enc_nat(n).len() >= 1,
        all_digits(enc_nat(n)),
        fold_digits(0, enc_nat(n)) == n,
        n > 0 ==> enc_nat(n)[0] != '0',
        n == 0 ==> enc_nat(n).len() == 1,
    decreases n,
{
    if n < 10 {
        assert(enc_nat(n) == seq![digit_char(n)]);
        assert(is_digit(digit_char(n)));
        assert(digit_val(digit_char(n)) == n);
        assert(seq![digit_char(n)].drop_first() =~= Seq::<char>::empty());
        assert(fold_digits(digit_val(digit_char(n)), Seq::<char>::empty()) == n);
        assert(fold_digits(0, enc_nat(n)) == n);
        if n > 0 {
            assert(digit_char(n) != '0');
        }
    } else {
        lemma_enc_nat_props(n / 10);
        let pre = enc_nat(n / 10);
        lemma_fold_snoc(0, pre, digit_char(n % 10));
        assert(digit_val(digit_char(n % 10)) == n % 10);
        assert(fold_digits(0, enc_nat(n)) == (n / 10) * 10 + n % 10);
        assert((n / 10) * 10 + n % 10 == n);
        assert forall|k: int| 0 <= k < enc_nat(n).len() implies is_digit(
            #[trigger] enc_nat(n)[k],
        ) by {
            if k < pre.len() {
                assert(enc_nat(n)[k] == pre[k]);
            } else {
                assert(enc_nat(n)[k] == digit_char(n % 10));
            }
        }
        assert(enc_nat(n)[0] == pre[0]);
        assert(n / 10 > 0);
    }
}

proof fn lemma_dec_digits_run(ds: Seq<char>, s: Seq<char>, pos: int, acc: int)
    requires
        has_at(s, pos, ds),
        all_digits(ds),
        acc >= 0,
        fold_digits(acc, ds) <= usize::MAX as int,
        pos + ds.len() == s.len() || !is_digit(s[pos + ds.len()]),
    ensures
        dec_digits(s, pos, acc) == Some((fold_digits(acc, ds), pos + ds.len())),
    decreases ds.len(),
{
    if ds.len() == 0 {
    } else {
        lemma_has_at_index(s, pos, ds, 0);
        assert(s[pos] == ds[0]);
        assert(is_digit(s[pos]));
        let acc2 = acc * 10 + digit_val(ds[0]);
        lemma_fold_mono(acc2, ds.drop_first());
        assert(acc2 <= usize::MAX as int);
        assert(ds =~= seq![ds[0]] + ds.drop_first());
        lemma_has_at_split(s, pos, seq![ds[0]], ds.drop_first());
        assert forall|k: int| 0 <= k < ds.drop_first().len() implies is_digit(
            #[trigger] ds.drop_first()[k],
        ) by {
            assert(ds.drop_first()[k] == ds[k + 1]);
        }
        lemma_dec_digits_run(ds.drop_first(), s, pos + 1, acc2);
    }
}

proof fn lemma_dec_nat_enc(n: int, s: Seq<char>, pos: int)
    requires
        0 <= n <= usize::MAX as int,
        has_at(s, pos, enc_nat(n)),
        pos + enc_nat(n).len() == s.len() || !is_digit(s[pos + enc_nat(n).len()]),
    ensures
        dec_nat(s, pos) == Some((n as usize, pos + enc_nat(n).len())),
{
    lemma_enc_nat_props(n);
    lemma_has_at_index(s, pos, enc_nat(n), 0);
    assert(is_digit(s[pos]));
    if s[pos] == '0' {
        assert(n == 0);
        assert(enc_nat(n).len() == 1);
    }
    lemma_dec_digits_run(enc_nat(n), s, pos, 0);
}

proof fn lemma_dec_bool_enc(b: bool, s: Seq<char>, pos: int)
    requires
        has_at(s, pos, enc_bool(b)),
    ensures
        dec_bool(s, pos) == Some((b, pos + enc_bool(b).len())),
{
    reveal_strlit("true");
    reveal_strlit("false");
    if b {
        lemma_dec_lit_at(s, pos, "true"@);
    } else {
        lemma_dec_lit_mismatch(s, pos, "false"@, "true"@);
        lemma_dec_lit_at(s, pos, "false"@);
    }
}

proof fn lemma_dec_opt_enc(o: Option<Seq<char>>, s: Seq<char>, pos: int)
    requires
        has_at(s, pos, enc_opt_string(o)),
    ensures
        dec_opt_string(s, pos) == Some((o, pos + enc_opt_string(o).len())),
{
    reveal_strlit("null");
    match o {
        None => {
            lemma_dec_lit_at(s, pos, "null"@);
        },
        Some(v) => {
            assert(enc_string(v)[0] == '"');
            lemma_dec_lit_mismatch(s, pos, enc_string(v), "null"@);
            lemma_dec_qstring_enc(v, s, pos);
        },
    }
}

proof fn lemma_dec_task_enc(t: TodoView, s: Seq<char>, pos: int)
    requires
        has_at(s, pos, enc_task(t)),
    ensures
        dec_task(s, pos) == Some((t, pos + enc_task(t).len())),
{
    let l1 = "{\"description\":"@;
    let e1 = enc_string(t.description);
    let l2 = ",\"complete\":"@;
    let e2 = enc_bool(t.complete);
    let l3 = ",\"created_at\":"@;
    let e3 = enc_string(t.created_at);
    let l4 = ",\"completed_at\":"@;
    let e4 = enc_opt_string(t.completed_at);
    let l5 = "}"@;
    let r8 = l5;
    let r7 = e4 + r8;
    let r6 = l4 + r7;
    let r5 = e3 + r6;
    let r4 = l3 + r5;
    let r3 = e2 + r4;
    let r2 = l2 + r3;
    let r1 = e1 + r2;
    assert(enc_task(t) =~= l1 + r1);
    lemma_has_at_split(s, pos, l1, r1);
    lemma_dec_lit_at(s, pos, l1);
    let p1 = pos + l1.len();
    lemma_has_at_split(s, p1, e1, r2);
    lemma_dec_qstring_enc(t.description, s, p1);
    let p2 = p1 + e1.len();
    lemma_has_at_split(s, p2, l2, r3);
    lemma_dec_lit_at(s, p2, l2);
    let p3 = p2 + l2.len();
    lemma_has_at_split(s, p3, e2, r4);
    lemma_dec_bool_enc(t.complete, s, p3);
    let p4 = p3 + e2.len();
    lemma_has_at_split(s, p4, l3, r5);
    lemma_dec_lit_at(s, p4, l3);
    let p5 = p4 + l3.len();
    lemma_has_at_split(s, p5, e3, r6);
    lemma_dec_qstring_enc(t.created_at, s, p5);
    let p6 = p5 + e3.len();
    lemma_has_at_split(s, p6, l4, r7);
    lemma_dec_lit_at(s, p6, l4);
    let p7 = p6 + l4.len();
    lemma_has_at_split(s, p7, e4, r8);
    lemma_dec_opt_enc(t.completed_at, s, p7);
    let p8 = p7 + e4.len();
    lemma_dec_lit_at(s, p8, l5);
}

proof fn lemma_dec_entry_enc(e: (usize, TodoView), s: Seq<char>, pos: int)
    requires
        has_at(s, pos, enc_entry(e)),
    ensures
        dec_entry(s, pos) == Some((e, pos + enc_entry(e).len())),
{
    reveal_strlit("\"");
    reveal_strlit("\":");
    let q = seq!['"'];
    let num = enc_nat(e.0 as int);
    let l2 = "\":"@;
    let et = enc_task(e.1);
    assert(enc_entry(e) =~= q + (num + (l2 + et)));
    lemma_has_at_split(s, pos, q, num + (l2 + et));
    assert("\""@ =~= q);
    lemma_dec_lit_at(s, pos, "\""@);
    let p1 = pos + 1;
    lemma_has_at_split(s, p1, num, l2 + et);
    lemma_has_at_index(s, p1 + num.len(), l2 + et, 0);
    assert((l2 + et)[0] == l2[0]);
    assert(l2[0] == '"');
    assert(!is_digit('"'));
    lemma_dec_nat_enc(e.0 as int, s, p1);
    let p2 = p1 + num.len();
    lemma_has_at_split(s, p2, l2, et);
    lemma_dec_lit_at(s, p2, l2);
    let p3 = p2 + l2.len();
    lemma_dec_task_enc(e.1, s, p3);
}

/// The encoding of all members after the first, each preceded by a comma.
pub open spec fn enc_rest(ts: Seq<(usize, TodoView)>) -> Seq<char>
    decreases ts.len(),
{
    if ts.len() == 0 {
        Seq::empty()
    } else {
        seq![','] + enc_entry(ts[0]) + enc_rest(ts.drop_first())
    }
}

proof fn lemma_enc_rest_snoc(ts: Seq<(usize, TodoView)>, e: (usize, TodoView))
    ensures
        enc_rest(ts.push(e)) == enc_rest(ts) + seq![','] + enc_entry(e),
    decreases ts.len(),
{
    if ts.len() == 0 {
        assert(ts.push(e)[0] == e);
        assert(ts.push(e).drop_first() =~= Seq::<(usize, TodoView)>::empty());
        assert(enc_rest(Seq::<(usize, TodoView)>::empty()) == Seq::<char>::empty());
        assert(enc_rest(ts.push(e)) =~= enc_rest(ts) + seq![','] + enc_entry(e));
    } else {
        assert(ts.push(e)[0] == ts[0]);
        assert(ts.push(e).drop_first() =~= ts.drop_first().push(e));
        lemma_enc_rest_snoc(ts.drop_first(), e);
        assert(enc_rest(ts.push(e)) =~= enc_rest(ts) + seq![','] + enc_entry(e));
    }
}

proof fn lemma_enc_entries_split(ts: Seq<(usize, TodoView)>)
    requires
        ts.len() > 0,
    ensures
        enc_entries(ts) == enc_entry(ts[0]) + enc_rest(ts.drop_first()),
    decreases ts.len(),
{
    if ts.len() == 1 {
        assert(ts.drop_first() =~= Seq::<(usize, TodoView)>::empty());
        assert(enc_entries(ts) =~= enc_entry(ts[0]) + enc_rest(ts.drop_first()));
    } else {
        let w = ts.drop_last();
        lemma_enc_entries_split(w);
        assert(w[0] == ts[0]);
        assert(ts.drop_first().drop_last() =~= w.drop_first());
        lemma_enc_rest_snoc(w.drop_first(), ts.last());
        assert(ts.drop_first() =~= w.drop_first().push(ts.last()));
        assert(enc_entries(ts) =~= enc_entry(ts[0]) + enc_rest(ts.drop_first()));
    }
}

proof fn lemma_dec_entries_rest(ts: Seq<(usize, TodoView)>, s: Seq<char>, pos: int)
    requires
        has_at(s, pos, enc_rest(ts) + seq!['}']),
    ensures
        dec_entries(s, pos, false) == Some((ts, pos + enc_rest(ts).len() + 1)),
    decreases ts.len(),
{
    if ts.len() == 0 {
        assert(enc_rest(ts) =~= Seq::<char>::empty());
        lemma_has_at_index(s, pos, enc_rest(ts) + seq!['}'], 0);
        assert(s[pos] == '}');
        assert(ts =~= Seq::<(usize, TodoView)>::empty());
    } else {
        let tail = enc_entry(ts[0]) + (enc_rest(ts.drop_first()) + seq!['}']);
        assert(enc_rest(ts) + seq!['}'] =~= seq![','] + tail);
        lemma_has_at_index(s, pos, enc_rest(ts) + seq!['}'], 0);
        assert(s[pos] == ',');
        lemma_has_at_split(s, pos, seq![','], tail);
        lemma_has_at_split(s, pos + 1, enc_entry(ts[0]), enc_rest(ts.drop_first()) + seq!['}']);
        lemma_dec_entry_enc(ts[0], s, pos + 1);
        let q = pos + 1 + enc_entry(ts[0]).len();
        lemma_dec_entries_rest(ts.drop_first(), s, q);
        assert(seq![ts[0]] + ts.drop_first() =~= ts);
    }
}

#[verifier::rlimit(100)]
#[verifier::spinoff_prover]
proof fn lemma_dec_entries_enc(ts: Seq<(usize, TodoView)>, s: Seq<char>, pos: int)
    requires
        has_at(s, pos, enc_entries(ts) + seq!['}']),
    ensures
        dec_entries(s, pos, true) == Some((ts, pos + enc_entries(ts).len() + 1)),
{
    if ts.len() == 0 {
        assert(enc_entries(ts) =~= Seq::<char>::empty());
        lemma_has_at_index(s, pos, enc_entries(ts) + seq!['}'], 0);
        assert(s[pos] == '}');
        assert(ts =~= Seq::<(usize, TodoView)>::empty());
    } else {
        reveal_strlit("\"");
        lemma_enc_entries_split(ts);
        assert(enc_entries(ts) + seq!['}'] =~= enc_entry(ts[0]) + (enc_rest(ts.drop_first())
            + seq!['}']));
        lemma_has_at_split(s, pos, enc_entry(ts[0]), enc_rest(ts.drop_first()) + seq!['}']);
        lemma_has_at_index(s, pos, enc_entry(ts[0]), 0);
        assert(enc_entry(ts[0])[0] == '"');
        assert(s[pos] == '"');
        lemma_dec_entry_enc(ts[0], s, pos);
        let q = pos + enc_entry(ts[0]).len();
        lemma_dec_entries_rest(ts.drop_first(), s, q);
        assert(seq![ts[0]] + ts.drop_first() =~= ts);
    }
}

/// Law: saving and loading round-trips. Decoding the encoding of any
/// well-formed store yields exactly that store back -- same tasks, same
/// identifiers, same counter. Together with the contracts of `to_json`
/// and `from_json`, this says that `from_json(to_json(store))` succeeds
/// and returns a store with the same model.
#[verifier::spinoff_prover]
proof fn lemma_store_layout(v: StoreView)
    ensures
        has_at(enc_store(v), 0, "{\"tasks\":{"@),
        has_at(enc_store(v), "{\"tasks\":{"@.len() as int, enc_entries(v.tasks) + seq!['}']),
        has_at(
            enc_store(v),
            ("{\"tasks\":{"@.len() + enc_entries(v.tasks).len() + 1) as int,
            ",\"next_id\":"@,
        ),
        has_at(
            enc_store(v),
            ("{\"tasks\":{"@.len() + enc_entries(v.tasks).len() + 1 + ",\"next_id\":"@.len()) as int,
            enc_nat(v.next_id as int) + seq!['}'],
        ),
        enc_store(v).len() == "{\"tasks\":{"@.len() + enc_entries(v.tasks).len() + 1
            + ",\"next_id\":"@.len() + enc_nat(v.next_id as int).len() + 1,
{
    let s = enc_store(v);
    let l1 = "{\"tasks\":{"@;
    let mid = enc_entries(v.tasks);
    let lmid = ",\"next_id\":"@;
    let num = enc_nat(v.next_id as int);
    let r2 = lmid + (num + seq!['}']);
    let r1 = (mid + seq!['}']) + r2;
    assert(s == l1 + r1);
    assert(s.subrange(0, s.len() as int) =~= s);
    assert(has_at(s, 0, l1 + r1));
    lemma_has_at_split(s, 0, l1, r1);
    let p1 = l1.len() as int;
    lemma_has_at_split(s, p1, mid + seq!['}'], r2);
    let p2 = p1 + mid.len() + 1;
    lemma_has_at_split(s, p2, lmid, num + seq!['}']);
}

/// Law: saving and loading round-trips. Decoding the encoding of any
/// well-formed store yields exactly that store back -- same tasks, same
/// identifiers, same counter. Together with the contracts of `to_json`
/// and `from_json`, this says that `from_json(to_json(store))` succeeds
/// and returns a store with the same model.
#[verifier::rlimit(100)]
#[verifier::spinoff_prover]
pub proof fn lemma_store_round_trip(v: StoreView)
    requires
        v.wf(),
    ensures
        dec_store(enc_store(v)) == Some(v),
{
    reveal_strlit("}");
    let s = enc_store(v);
    let l1 = "{\"tasks\":{"@;
    let mid = enc_entries(v.tasks);
    let lmid = ",\"next_id\":"@;
    let num = enc_nat(v.next_id as int);
    lemma_store_layout(v);
    lemma_dec_lit_at(s, 0, l1);
    let p1 = l1.len() as int;
    lemma_dec_entries_enc(v.tasks, s, p1);
    let p2 = p1 + mid.len() + 1;
    lemma_dec_lit_at(s, p2, lmid);
    let p3 = p2 + lmid.len();
    lemma_has_at_split(s, p3, num, seq!['}']);
    lemma_has_at_index(s, p3 + num.len(), seq!['}'], 0);
    assert(!is_digit('}'));
    lemma_dec_nat_enc(v.next_id as int, s, p3);
    let p4 = p3 + num.len();
    assert("}"@ =~= seq!['}']);
    lemma_dec_lit_at(s, p4, "}"@);
    assert(p4 + 1 == s.len());
}

/// Adjacent order implies the full pairwise order.
proof fn lemma_chain(t: Seq<(usize, TodoView)>, i: int, j: int)
    requires
        forall|k: int| 0 < k < t.len() ==> (#[trigger] t[k]).0 > t[k - 1].0,
        0 <= i < j < t.len(),
    ensures
        t[i].0 < t[j].0,
    decreases j - i,
{
    if j == i + 1 {
        assert(t[j].0 > t[j - 1].0);
    } else {
        lemma_chain(t, i, j - 1);
        assert(t[j].0 > t[j - 1].0);
    }
}

/// Whether tasks and counter form a well-formed store.
fn check_wf(todos: &Vec<(usize, Todo)>, next_id: usize) -> (b: bool)
    ensures
        b == (StoreView {
            tasks: todos@.map_values(|p: (usize, Todo)| (p.0, p.1@)),
            next_id: next_id,
        }).wf(),
{
    let ghost tasks = todos@.map_values(|p: (usize, Todo)| (p.0, p.1@));
    if next_id < 1 {
        return false;
    }
    let mut i: usize = 0;
    while i < todos.len()
        invariant
            next_id >= 1,
            i <= todos.len(),
            tasks == todos@.map_values(|p: (usize, Todo)| (p.0, p.1@)),
            tasks.len() == todos@.len(),
            forall|k: int| 0 <= k < i ==> 1 <= (#[trigger] tasks[k]).0 < next_id,
            forall|k: int| 0 < k < i ==> (#[trigger] tasks[k]).0 > tasks[k - 1].0,
        decreases todos.len() - i,
    {
        proof {
            assert(tasks[i as int] == (todos@[i as int].0, todos@[i as int].1@));
        }
        if todos[i].0 < 1 || todos[i].0 >= next_id {
            proof {
                assert(!(1 <= tasks[i as int].0 < next_id));
            }
            return false;
        }
        if i > 0 && todos[i - 1].0 >= todos[i].0 {
            proof {
                assert(tasks[i - 1].0 >= tasks[i as int].0);
                assert(!sorted_by_id(tasks));
            }
            return false;
        }
        i = i + 1;
    }
    proof {
        assert forall|a: int, b: int| 0 <= a < b < tasks.len() implies tasks[a].0 < tasks[b].0 by {
            lemma_chain(tasks, a, b);
        }
    }
    true
}

impl TodoList {
    /// Deserialize a store from its persisted document. Returns the
    /// store the document denotes, or `MalformedData` if the text is not
    /// the canonical encoding of a well-formed store.
    pub fn from_json(text: &str) -> (r: Result<TodoList, TodoError>)
        ensures
            (match r {
                Ok(l) => l@.wf() && dec_store(text@) == Some(l@),
                Err(e) => e == TodoError::MalformedData && dec_store(text@) is None,
            }),
    {
        let s = chars_vec(text);
        let p1 = match expect_lit(&s, 0, "{\"tasks\":{") {
            Some(q) => q,
            None => {
                return Err(TodoError::MalformedData);
            },
        };
        let (ts, p2) = match parse_entries(&s, p1, true) {
            Some(p) => p,
            None => {
                return Err(TodoError::MalformedData);
            },
        };
        let p3 = match expect_lit(&s, p2, ",\"next_id\":") {
            Some(q) => q,
            None => {
                return Err(TodoError::MalformedData);
            },
        };
        let (nid, p4) = match parse_nat(&s, p3) {
            Some(p) => p,
            None => {
                return Err(TodoError::MalformedData);
            },
        };
        let p5 = match expect_lit(&s, p4, "}") {
            Some(q) => q,
            None => {
                return Err(TodoError::MalformedData);
            },
        };
        if p5 != s.len() {
            return Err(TodoError::MalformedData);
        }
        if !check_wf(&ts, nid) {
            return Err(TodoError::MalformedData);
        }
        let l = TodoList { todos: ts, next_id: nid };
        Ok(l)
    }
}

} // verus!
