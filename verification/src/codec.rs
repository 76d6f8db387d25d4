//! The stored text form of a record list: a JSON array of objects with the
//! four record fields, written compactly and read back strictly.
//!
//! The writer emits `[{"id":1,"name":"...","priority":2,"completed":false},...]`,
//! escaping quotes, backslashes and control characters inside names. The
//! reader accepts exactly that shape — the four fields in that order, the
//! escapes the writer emits plus the other standard single-character ones
//! and `\u00XX` — and anything else is treated as absent content, the
//! store's fallback on unreadable data.

use vstd::prelude::*;

use crate::text::{chars_to_string, to_char_vec};
use crate::todo::{views, Todo, TodoView};

verus! {

// ---------------------------------------------------------------------
// The encoded form, as a function of the record views.
// ---------------------------------------------------------------------
/// The decimal digit character for `d`.
pub open spec fn digit_char(d: int) -> char {
    if d == 0 {
        '0'
    } else if d == 1 {
        '1'
    } else if d == 2 {
        '2'
    } else if d == 3 {
        '3'
    } else if d == 4 {
        '4'
    } else if d == 5 {
        '5'
    } else if d == 6 {
        '6'
    } else if d == 7 {
        '7'
    } else if d == 8 {
        '8'
    } else {
        '9'
    }
}

/// The lowercase hexadecimal digit character for `d`.
pub open spec fn hex_char(d: int) -> char {
    if d < 10 {
        digit_char(d)
    } else if d == 10 {
        'a'
    } else if d == 11 {
        'b'
    } else if d == 12 {
        'c'
    } else if d == 13 {
        'd'
    } else if d == 14 {
        'e'
    } else {
        'f'
    }
}

/// The decimal representation of `n`, most significant digit first.
pub open spec fn dec_rep(n: nat) -> Seq<char>
    decreases n,
{
    if n < 10 {
        seq![digit_char(n as int)]
    } else {
        dec_rep(n / 10).push(digit_char((n % 10) as int))
    }
}

/// The escaped form of one name character.
pub open spec fn esc_char(c: char) -> Seq<char> {
    if c == '"' {
        seq!['\\', '"']
    } else if c == '\\' {
        seq!['\\', '\\']
    } else if c == '\u{8}' {
        seq!['\\', 'b']
    } else if c == '\u{c}' {
        seq!['\\', 'f']
    } else if c == '\n' {
        seq!['\\', 'n']
    } else if c == '\r' {
        seq!['\\', 'r']
    } else if c == '\t' {
        seq!['\\', 't']
    } else if (c as u32) < 0x20 {
        seq!['\\', 'u', '0', '0', hex_char((c as u32) as int / 16), hex_char((c as u32) as int % 16)]
    } else {
        seq![c]
    }
}

/// The escaped form of a whole name.
pub open spec fn esc(s: Seq<char>) -> Seq<char>
    decreases s.len(),
{
    if s.len() == 0 {
        Seq::<char>::empty()
    } else {
        esc_char(s[0]) + esc(s.drop_first())
    }
}

/// The literal `true` or `false`.
pub open spec fn bool_rep(b: bool) -> Seq<char> {
    if b {
        seq!['t', 'r', 'u', 'e']
    } else {
        seq!['f', 'a', 'l', 's', 'e']
    }
}

/// The opening of an object up to its id value: `{"id":`.
pub open spec fn lit_obj_open() -> Seq<char> {
    seq!['{', '"', 'i', 'd', '"', ':']
}

/// Between the id value and the name value: `,"name":"`.
pub open spec fn lit_name_key() -> Seq<char> {
    seq![',', '"', 'n', 'a', 'm', 'e', '"', ':', '"']
}

/// Between the name's closing quote and the priority value: `,"priority":`.
pub open spec fn lit_pri_key() -> Seq<char> {
    seq![',', '"', 'p', 'r', 'i', 'o', 'r', 'i', 't', 'y', '"', ':']
}

/// Between the priority value and the completed value: `,"completed":`.
pub open spec fn lit_comp_key() -> Seq<char> {
    seq![',', '"', 'c', 'o', 'm', 'p', 'l', 'e', 't', 'e', 'd', '"', ':']
}

/// The encoded form of one record.
pub open spec fn enc_todo(t: TodoView) -> Seq<char> {
    lit_obj_open() + dec_rep(t.id as nat) + lit_name_key() + esc(t.name) + seq!['"'] + lit_pri_key()
        + dec_rep(t.priority as nat) + lit_comp_key() + bool_rep(t.completed) + seq!['}']
}

/// The comma-separated encoded records.
pub open spec fn enc_items(l: Seq<TodoView>) -> Seq<char>
    decreases l.len(),
{
    if l.len() == 0 {
        Seq::<char>::empty()
    } else if l.len() == 1 {
        enc_todo(l[0])
    } else {
        enc_todo(l[0]) + seq![','] + enc_items(l.drop_first())
    }
}

/// The encoded form of a whole list.
pub open spec fn enc_list(l: Seq<TodoView>) -> Seq<char> {
    if l.len() == 0 {
        seq!['[', ']']
    } else {
        seq!['['] + enc_items(l) + seq![']']
    }
}

// ---------------------------------------------------------------------
// The writer.
// ---------------------------------------------------------------------
/// The decimal digit character for `d`.
fn digit_char_exec(d: u64) -> (r: char)
    requires
        d < 10,
    ensures
        r == digit_char(d as int),
{
    if d == 0 {
        '0'
    } else if d == 1 {
        '1'
    } else if d == 2 {
        '2'
    } else if d == 3 {
        '3'
    } else if d == 4 {
        '4'
    } else if d == 5 {
        '5'
    } else if d == 6 {
        '6'
    } else if d == 7 {
        '7'
    } else if d == 8 {
        '8'
    } else {
        '9'
    }
}

/// The lowercase hexadecimal digit character for `d`.
fn hex_char_exec(d: u32) -> (r: char)
    requires
        d < 16,
    ensures
        r == hex_char(d as int),
{
    if d < 10 {
        digit_char_exec(d as u64)
    } else if d == 10 {
        'a'
    } else if d == 11 {
        'b'
    } else if d == 12 {
        'c'
    } else if d == 13 {
        'd'
    } else if d == 14 {
        'e'
    } else {
        'f'
    }
}

/// Appends the decimal representation of `n`.
fn push_dec(out: &mut Vec<char>, n: u64)
    ensures
        final(out)@ == old(out)@ + dec_rep(n as nat),
    decreases n,
{
    if n < 10 {
        out.push(digit_char_exec(n));
        proof {
            assert(final(out)@ =~= old(out)@ + dec_rep(n as nat));
        }
    } else {
        push_dec(out, n / 10);
        out.push(digit_char_exec(n % 10));
        proof {
            assert(final(out)@ =~= old(out)@ + dec_rep(n as nat));
        }
    }
}

/// Appends the escaped form of one name character.
fn push_esc_char(out: &mut Vec<char>, c: char)
    ensures
        final(out)@ == old(out)@ + esc_char(c),
{
    if c == '"' {
        out.push('\\');
        out.push('"');
    } else if c == '\\' {
        out.push('\\');
        out.push('\\');
    } else if c == '\u{8}' {
        out.push('\\');
        out.push('b');
    } else if c == '\u{c}' {
        out.push('\\');
        out.push('f');
    } else if c == '\n' {
        out.push('\\');
        out.push('n');
    } else if c == '\r' {
        out.push('\\');
        out.push('r');
    } else if c == '\t' {
        out.push('\\');
        out.push('t');
    } else if (c as u32) < 0x20 {
        out.push('\\');
        out.push('u');
        out.push('0');
        out.push('0');
        out.push(hex_char_exec((c as u32) / 16));
        out.push(hex_char_exec((c as u32) % 16));
    } else {
        out.push(c);
    }
    proof {
        assert(final(out)@ =~= old(out)@ + esc_char(c));
    }
}

/// Escaping a concatenation escapes piece by piece.
proof fn lemma_esc_concat(a: Seq<char>, b: Seq<char>)
    ensures
        esc(a + b) == esc(a) + esc(b),
    decreases a.len(),
{
    if a.len() == 0 {
        assert(a + b =~= b);
        assert(esc(a) + esc(b) =~= esc(b));
    } else {
        lemma_esc_concat(a.drop_first(), b);
        assert((a + b).drop_first() =~= a.drop_first() + b);
        assert((a + b)[0] == a[0]);
        assert(esc(a + b) =~= esc(a) + esc(b));
    }
}

/// Appends the escaped form of a whole name.
fn push_esc(out: &mut Vec<char>, name: &Vec<char>)
    ensures
        final(out)@ == old(out)@ + esc(name@),
{
    let n = name.len();
    let mut i: usize = 0;
    proof {
        assert(name@.take(0) =~= Seq::<char>::empty());
        assert(out@ =~= old(out)@ + esc(name@.take(0)));
    }
    while i < n
        invariant
            n == name@.len(),
            i <= n,
            out@ == old(out)@ + esc(name@.take(i as int)),
        decreases n - i,
    {
        push_esc_char(out, name[i]);
        proof {
            let pre = name@.take(i as int);
            let one = seq![name@[i as int]];
            lemma_esc_concat(pre, one);
            assert(pre + one =~= name@.take((i + 1) as int));
            assert(one.drop_first() =~= Seq::<char>::empty());
            assert(esc(Seq::<char>::empty()) == Seq::<char>::empty());
            assert(esc(one) =~= esc_char(name@[i as int]));
            assert(out@ =~= old(out)@ + esc(name@.take((i + 1) as int)));
        }
        i += 1;
    }
    proof {
        assert(name@.take(n as int) =~= name@);
    }
}

/// Appends `{"id":`.
fn push_obj_open(out: &mut Vec<char>)
    ensures
        final(out)@ == old(out)@ + lit_obj_open(),
{
    out.push('{');
    out.push('"');
    out.push('i');
    out.push('d');
    out.push('"');
    out.push(':');
    proof {
        assert(out@ =~= old(out)@ + lit_obj_open());
    }
}

/// Appends `,"name":"`.
fn push_name_key(out: &mut Vec<char>)
    ensures
        final(out)@ == old(out)@ + lit_name_key(),
{
    out.push(',');
    out.push('"');
    out.push('n');
    out.push('a');
    out.push('m');
    out.push('e');
    out.push('"');
    out.push(':');
    out.push('"');
    proof {
        assert(out@ =~= old(out)@ + lit_name_key());
    }
}

/// Appends the name's closing quote and `,"priority":`.
fn push_pri_key(out: &mut Vec<char>)
    ensures
        final(out)@ == old(out)@ + seq!['"'] + lit_pri_key(),
{
    out.push('"');
    out.push(',');
    out.push('"');
    out.push('p');
    out.push('r');
    out.push('i');
    out.push('o');
    out.push('r');
    out.push('i');
    out.push('t');
    out.push('y');
    out.push('"');
    out.push(':');
    proof {
        assert(out@ =~= old(out)@ + seq!['"'] + lit_pri_key());
    }
}

/// Appends `,"completed":`.
fn push_comp_key(out: &mut Vec<char>)
    ensures
        final(out)@ == old(out)@ + lit_comp_key(),
{
    out.push(',');
    out.push('"');
    out.push('c');
    out.push('o');
    out.push('m');
    out.push('p');
    out.push('l');
    out.push('e');
    out.push('t');
    out.push('e');
    out.push('d');
    out.push('"');
    out.push(':');
    proof {
        assert(out@ =~= old(out)@ + lit_comp_key());
    }
}

/// Appends `true` or `false`, then the closing brace.
fn push_bool_close(out: &mut Vec<char>, b: bool)
    ensures
        final(out)@ == old(out)@ + bool_rep(b) + seq!['}'],
{
    if b {
        out.push('t');
        out.push('r');
        out.push('u');
        out.push('e');
    } else {
        out.push('f');
        out.push('a');
        out.push('l');
        out.push('s');
        out.push('e');
    }
    out.push('}');
    proof {
        assert(out@ =~= old(out)@ + bool_rep(b) + seq!['}']);
    }
}

/// Appends the encoded form of one record.
#[verifier::rlimit(60)]
fn push_todo(out: &mut Vec<char>, t: &Todo)
    ensures
        final(out)@ == old(out)@ + enc_todo(t@),
{
    push_obj_open(out);
    push_dec(out, t.id as u64);
    push_name_key(out);
    let name_chars = to_char_vec(t.name.as_str());
    push_esc(out, &name_chars);
    push_pri_key(out);
    push_dec(out, t.priority as u64);
    push_comp_key(out);
    push_bool_close(out, t.completed);
    proof {
        assert(out@ =~= old(out)@ + enc_todo(t@));
    }
}

/// Appending one more record extends the comma-separated body by a comma
/// and that record.
proof fn lemma_enc_items_snoc(l: Seq<TodoView>, x: TodoView)
    requires
        l.len() >= 1,
    ensures
        enc_items(l.push(x)) == enc_items(l) + seq![','] + enc_todo(x),
    decreases l.len(),
{
    if l.len() == 1 {
        let p = l.push(x);
        assert(p.len() == 2);
        assert(p[0] == l[0]);
        assert(p.drop_first() =~= seq![x]);
        assert(enc_items(seq![x]) == enc_todo(x));
        assert(enc_items(l.push(x)) =~= enc_items(l) + seq![','] + enc_todo(x));
    } else {
        lemma_enc_items_snoc(l.drop_first(), x);
        let p = l.push(x);
        assert(p[0] == l[0]);
        assert(p.drop_first() =~= l.drop_first().push(x));
        assert(enc_items(l.push(x)) =~= enc_items(l) + seq![','] + enc_todo(x));
    }
}

// ---------------------------------------------------------------------
// The reader's grammar, as functions of the stored text.
// ---------------------------------------------------------------------
/// A decimal digit character.
pub open spec fn is_digit(c: char) -> bool {
    0x30 <= (c as u32) && (c as u32) <= 0x39
}

/// The value of a decimal digit character.
pub open spec fn digit_val(c: char) -> int {
    (c as u32) - 0x30
}

/// A hexadecimal digit character, either case.
pub open spec fn is_hex(c: char) -> bool {
    is_digit(c) || (0x61 <= (c as u32) && (c as u32) <= 0x66) || (0x41 <= (c as u32) && (c as u32)
        <= 0x46)
}

/// The value of a hexadecimal digit character.
pub open spec fn hex_val(c: char) -> int {
    if is_digit(c) {
        digit_val(c)
    } else if 0x61 <= (c as u32) && (c as u32) <= 0x66 {
        (c as u32) - 0x61 + 10
    } else {
        (c as u32) - 0x41 + 10
    }
}

/// Scans digits from `i`, folding them onto `acc`; stops at the first
/// non-digit and yields the value and the stop position.
pub open spec fn p_digits(s: Seq<char>, i: int, acc: nat) -> (nat, int)
    decreases s.len() - i,
{
    if 0 <= i && i < s.len() && is_digit(s[i]) {
        p_digits(s, i + 1, (acc * 10 + digit_val(s[i])) as nat)
    } else {
        (acc, i)
    }
}

/// A number at `i`: at least one digit.
pub open spec fn p_nat(s: Seq<char>, i: int) -> Option<(nat, int)> {
    if 0 <= i && i < s.len() && is_digit(s[i]) {
        Some(p_digits(s, i, 0))
    } else {
        None
    }
}

/// A string body at `i`, the opening quote already consumed: characters
/// and escapes up to and including the closing quote.
pub open spec fn p_str_body(s: Seq<char>, i: int) -> Option<(Seq<char>, int)>
    decreases s.len() - i,
{
    if !(0 <= i && i < s.len()) {
        None
    } else {
        let c = s[i];
        if c == '"' {
            Some((Seq::<char>::empty(), i + 1))
        } else if c == '\\' {
            if i + 1 >= s.len() {
                None
            } else {
                let e = s[i + 1];
                if e == 'u' {
                    if i + 6 <= s.len() && is_hex(s[i + 2]) && is_hex(s[i + 3]) && is_hex(s[i + 4])
                        && is_hex(s[i + 5]) {
                        let v = ((hex_val(s[i + 2]) * 16 + hex_val(s[i + 3])) * 16 + hex_val(
                            s[i + 4],
                        )) * 16 + hex_val(s[i + 5]);
                        if v <= 0xFF {
                            match p_str_body(s, i + 6) {
                                None => None,
                                Some((t, j)) => Some((seq![((v as u8) as char)] + t, j)),
                            }
                        } else {
                            None
                        }
                    } else {
                        None
                    }
                } else {
                    let d: Option<char> = if e == '"' {
                        Some('"')
                    } else if e == '\\' {
                        Some('\\')
                    } else if e == '/' {
                        Some('/')
                    } else if e == 'b' {
                        Some('\u{8}')
                    } else if e == 'f' {
                        Some('\u{c}')
                    } else if e == 'n' {
                        Some('\n')
                    } else if e == 'r' {
                        Some('\r')
                    } else if e == 't' {
                        Some('\t')
                    } else {
                        None
                    };
                    match d {
                        None => None,
                        Some(dc) => match p_str_body(s, i + 2) {
                            None => None,
                            Some((t, j)) => Some((seq![dc] + t, j)),
                        },
                    }
                }
            }
        } else if (c as u32) >= 0x20 {
            match p_str_body(s, i + 1) {
                None => None,
                Some((t, j)) => Some((seq![c] + t, j)),
            }
        } else {
            None
        }
    }
}

/// The fixed characters `lit` stand at `i`.
pub open spec fn at_lit(s: Seq<char>, i: int, lit: Seq<char>) -> bool {
    0 <= i && i + lit.len() <= s.len() && s.subrange(i, i + lit.len()) == lit
}

/// One record object at `i`: the four fields, in the written order.
pub open spec fn p_todo(s: Seq<char>, i: int) -> Option<(TodoView, int)> {
    if !at_lit(s, i, lit_obj_open()) {
        None
    } else {
        match p_nat(s, i + lit_obj_open().len()) {
            None => None,
            Some((id, j)) => if id > usize::MAX as nat || !at_lit(s, j, lit_name_key()) {
                None
            } else {
                match p_str_body(s, j + lit_name_key().len()) {
                    None => None,
                    Some((name, j2)) => if !at_lit(s, j2, lit_pri_key()) {
                        None
                    } else {
                        match p_nat(s, j2 + lit_pri_key().len()) {
                            None => None,
                            Some((pri, j3)) => if pri > 255 || !at_lit(s, j3, lit_comp_key()) {
                                None
                            } else {
                                let j4 = j3 + lit_comp_key().len();
                                let b: Option<(bool, int)> = if at_lit(s, j4, bool_rep(true)) {
                                    Some((true, j4 + 4))
                                } else if at_lit(s, j4, bool_rep(false)) {
                                    Some((false, j4 + 5))
                                } else {
                                    None
                                };
                                match b {
                                    None => None,
                                    Some((completed, j5)) => if j5 < s.len() && s[j5] == '}' {
                                        Some(
                                            (
                                                TodoView {
                                                    id: id as int,
                                                    name,
                                                    priority: pri as int,
                                                    completed,
                                                },
                                                j5 + 1,
                                            ),
                                        )
                                    } else {
                                        None
                                    },
                                }
                            },
                        }
                    },
                }
            },
        }
    }
}

/// One or more records from `i`, separated by commas and closed by `]`,
/// which is consumed.
pub open spec fn p_items(s: Seq<char>, i: int) -> Option<(Seq<TodoView>, int)>
    decreases s.len() - i,
{
    match p_todo(s, i) {
        None => None,
        Some((t, j)) => if j <= i || j > s.len() {
            None
        } else if j < s.len() && s[j] == ',' {
            match p_items(s, j + 1) {
                None => None,
                Some((l, j2)) => Some((seq![t] + l, j2)),
            }
        } else if j < s.len() && s[j] == ']' {
            Some((seq![t], j + 1))
        } else {
            None
        },
    }
}

/// A whole stored list: `[]`, or `[` records `]`, with nothing after.
pub open spec fn p_list(s: Seq<char>) -> Option<Seq<TodoView>> {
    if s.len() < 1 || s[0] != '[' {
        None
    } else if s.len() == 2 && s[1] == ']' {
        Some(Seq::<TodoView>::empty())
    } else {
        match p_items(s, 1) {
            None => None,
            Some((l, j)) => if j == s.len() {
                Some(l)
            } else {
                None
            },
        }
    }
}

/// What loading stored text yields: nothing for empty content, the parsed
/// records when the text has the expected shape, nothing otherwise.
pub open spec fn spec_load(s: Seq<char>) -> Seq<TodoView> {
    if s.len() == 0 {
        Seq::<TodoView>::empty()
    } else {
        match p_list(s) {
            Some(l) => l,
            None => Seq::<TodoView>::empty(),
        }
    }
}

// ---------------------------------------------------------------------
// The reader.
// ---------------------------------------------------------------------
/// Whether the fixed characters `lit` stand at `i`.
fn check_lit(s: &Vec<char>, i: usize, lit: &Vec<char>) -> (r: bool)
    ensures
        r == at_lit(s@, i as int, lit@),
{
    let n = s.len();
    let m = lit.len();
    if i > n || m > n - i {
        return false;
    }
    let mut j: usize = 0;
    while j < m
        invariant
            n == s@.len(),
            m == lit@.len(),
            i + m <= n,
            j <= m,
            forall|k: int| 0 <= k < j ==> s@[i + k] == lit@[k],
        decreases m - j,
    {
        if s[i + j] != lit[j] {
            proof {
                assert(s@.subrange(i as int, i + lit@.len())[j as int] != lit@[j as int]);
            }
            return false;
        }
        j += 1;
    }
    proof {
        assert(s@.subrange(i as int, i + lit@.len()) =~= lit@);
    }
    true
}

/// The characters of `{"id":`.
fn lit_obj_open_vec() -> (r: Vec<char>)
    ensures
        r@ == lit_obj_open(),
{
    let mut v: Vec<char> = Vec::new();
    v.push('{');
    v.push('"');
    v.push('i');
    v.push('d');
    v.push('"');
    v.push(':');
    proof {
        assert(v@ =~= lit_obj_open());
    }
    v
}

/// The characters of `,"name":"`.
fn lit_name_key_vec() -> (r: Vec<char>)
    ensures
        r@ == lit_name_key(),
{
    let mut v: Vec<char> = Vec::new();
    v.push(',');
    v.push('"');
    v.push('n');
    v.push('a');
    v.push('m');
    v.push('e');
    v.push('"');
    v.push(':');
    v.push('"');
    proof {
        assert(v@ =~= lit_name_key());
    }
    v
}

/// The characters of `,"priority":`.
fn lit_pri_key_vec() -> (r: Vec<char>)
    ensures
        r@ == lit_pri_key(),
{
    let mut v: Vec<char> = Vec::new();
    v.push(',');
    v.push('"');
    v.push('p');
    v.push('r');
    v.push('i');
    v.push('o');
    v.push('r');
    v.push('i');
    v.push('t');
    v.push('y');
    v.push('"');
    v.push(':');
    proof {
        assert(v@ =~= lit_pri_key());
    }
    v
}

/// The characters of `,"completed":`.
fn lit_comp_key_vec() -> (r: Vec<char>)
    ensures
        r@ == lit_comp_key(),
{
    let mut v: Vec<char> = Vec::new();
    v.push(',');
    v.push('"');
    v.push('c');
    v.push('o');
    v.push('m');
    v.push('p');
    v.push('l');
    v.push('e');
    v.push('t');
    v.push('e');
    v.push('d');
    v.push('"');
    v.push(':');
    proof {
        assert(v@ =~= lit_comp_key());
    }
    v
}

/// The characters of `true`.
fn lit_true_vec() -> (r: Vec<char>)
    ensures
        r@ == bool_rep(true),
{
    let mut v: Vec<char> = Vec::new();
    v.push('t');
    v.push('r');
    v.push('u');
    v.push('e');
    proof {
        assert(v@ =~= bool_rep(true));
    }
    v
}

/// The characters of `false`.
fn lit_false_vec() -> (r: Vec<char>)
    ensures
        r@ == bool_rep(false),
{
    let mut v: Vec<char> = Vec::new();
    v.push('f');
    v.push('a');
    v.push('l');
    v.push('s');
    v.push('e');
    proof {
        assert(v@ =~= bool_rep(false));
    }
    v
}

/// Scanning digits can only grow the folded value.
proof fn lemma_p_digits_lb(s: Seq<char>, i: int, acc: nat)
    ensures
        p_digits(s, i, acc).0 >= acc,
    decreases s.len() - i,
{
    if 0 <= i && i < s.len() && is_digit(s[i]) {
        lemma_p_digits_lb(s, i + 1, (acc * 10 + digit_val(s[i])) as nat);
    }
}

/// Reads a number at `i`, refusing one beyond the machine range.
fn parse_num(s: &Vec<char>, i: usize) -> (r: Option<(u64, usize)>)
    ensures
        p_nat(s@, i as int) is None ==> r is None,
        p_nat(s@, i as int) matches Some((n, j)) ==> ((n <= u64::MAX ==> (r matches Some((nv, jv))
            && nv == n && jv == j)) && (n > u64::MAX ==> r is None)),
{
    let n = s.len();
    if i >= n {
        return None;
    }
    let c0 = s[i];
    if !((c0 as u32) >= 0x30 && (c0 as u32) <= 0x39) {
        return None;
    }
    let mut j: usize = i;
    let mut acc: u64 = 0;
    loop
        invariant
            n == s@.len(),
            i <= j <= n,
            p_digits(s@, i as int, 0) == p_digits(s@, j as int, acc as nat),
        ensures
            i <= j <= n,
            p_digits(s@, i as int, 0) == (acc as nat, j as int),
        decreases n - j,
    {
        if j == n {
            proof {
                assert(p_digits(s@, j as int, acc as nat) == (acc as nat, j as int));
            }
            break ;
        }
        let c = s[j];
        if !((c as u32) >= 0x30 && (c as u32) <= 0x39) {
            proof {
                assert(p_digits(s@, j as int, acc as nat) == (acc as nat, j as int));
            }
            break ;
        }
        let d = ((c as u32) - 0x30) as u64;
        if acc > (u64::MAX - d) / 10 {
            proof {
                assert(p_digits(s@, j as int, acc as nat) == p_digits(
                    s@,
                    j + 1,
                    (acc * 10 + digit_val(s@[j as int])) as nat,
                ));
                lemma_p_digits_lb(s@, j + 1, (acc * 10 + digit_val(s@[j as int])) as nat);
                assert(acc * 10 + d > u64::MAX);
            }
            return None;
        }
        acc = acc * 10 + d;
        j += 1;
    }
    Some((acc, j))
}

/// The value of one hexadecimal digit character, if it is one.
fn hex_digit_exec(c: char) -> (r: Option<u32>)
    ensures
        r is Some <==> is_hex(c),
        r matches Some(v) ==> v == hex_val(c) && v < 16,
{
    let u = c as u32;
    if 0x30 <= u && u <= 0x39 {
        Some(u - 0x30)
    } else if 0x61 <= u && u <= 0x66 {
        Some(u - 0x61 + 10)
    } else if 0x41 <= u && u <= 0x46 {
        Some(u - 0x41 + 10)
    } else {
        None
    }
}

/// Reads a string body at `i`, the opening quote already consumed.
fn parse_str_body(s: &Vec<char>, i: usize) -> (r: Option<(Vec<char>, usize)>)
    ensures
        p_str_body(s@, i as int) is None ==> r is None,
        p_str_body(s@, i as int) matches Some((t, j)) ==> (r matches Some((tv, jv)) && tv@ == t
            && jv == j),
    decreases s@.len() - i,
{
    let n = s.len();
    if i >= n {
        return None;
    }
    let c = s[i];
    if c == '"' {
        let empty_body: Vec<char> = Vec::new();
        return Some((empty_body, i + 1));
    }
    if c == '\\' {
        if i + 1 >= n {
            return None;
        }
        let e = s[i + 1];
        if e == 'u' {
            if n - i < 6 {
                return None;
            }
            let h2 = hex_digit_exec(s[i + 2]);
            let h3 = hex_digit_exec(s[i + 3]);
            let h4 = hex_digit_exec(s[i + 4]);
            let h5 = hex_digit_exec(s[i + 5]);
            match (h2, h3, h4, h5) {
                (Some(v2), Some(v3), Some(v4), Some(v5)) => {
                    let v = ((v2 * 16 + v3) * 16 + v4) * 16 + v5;
                    if v > 0xFF {
                        return None;
                    }
                    match parse_str_body(s, i + 6) {
                        None => None,
                        Some((mut tv, jv)) => {
                            tv.insert(0, (v as u8) as char);
                            proof {
                                let spec_t = (p_str_body(s@, (i + 6) as int)->Some_0).0;
                                assert(tv@ =~= seq![((v as u8) as char)] + spec_t);
                            }
                            Some((tv, jv))
                        },
                    }
                },
                _ => None,
            }
        } else {
            let d: Option<char> = if e == '"' {
                Some('"')
            } else if e == '\\' {
                Some('\\')
            } else if e == '/' {
                Some('/')
            } else if e == 'b' {
                Some('\u{8}')
            } else if e == 'f' {
                Some('\u{c}')
            } else if e == 'n' {
                Some('\n')
            } else if e == 'r' {
                Some('\r')
            } else if e == 't' {
                Some('\t')
            } else {
                None
            };
            match d {
                None => None,
                Some(dc) => match parse_str_body(s, i + 2) {
                    None => None,
                    Some((mut tv, jv)) => {
                        tv.insert(0, dc);
                        proof {
                            let spec_t = (p_str_body(s@, (i + 2) as int)->Some_0).0;
                            assert(tv@ =~= seq![dc] + spec_t);
                        }
                        Some((tv, jv))
                    },
                },
            }
        }
    } else if (c as u32) >= 0x20 {
        match parse_str_body(s, i + 1) {
            None => None,
            Some((mut tv, jv)) => {
                tv.insert(0, c);
                proof {
                    let spec_t = (p_str_body(s@, (i + 1) as int)->Some_0).0;
                    assert(tv@ =~= seq![c] + spec_t);
                }
                Some((tv, jv))
            },
        }
    } else {
        None
    }
}

/// Reads one record object at `i`.
#[verifier::rlimit(100)]
fn parse_todo(s: &Vec<char>, i: usize) -> (r: Option<(Todo, usize)>)
    ensures
        p_todo(s@, i as int) is None ==> r is None,
        p_todo(s@, i as int) matches Some((t, j)) ==> (r matches Some((tv, jv)) && tv@ == t && jv
            == j),
{
    let n = s.len();
    let obj_open = lit_obj_open_vec();
    if !check_lit(s, i, &obj_open) {
        return None;
    }
    let id_res = parse_num(s, i + obj_open.len());
    let (idv, j) = match id_res {
        None => {
            return None;
        },
        Some(p) => p,
    };
    if idv > usize::MAX as u64 {
        return None;
    }
    let name_key = lit_name_key_vec();
    if !check_lit(s, j, &name_key) {
        return None;
    }
    let name_res = parse_str_body(s, j + name_key.len());
    let (name_chars, j2) = match name_res {
        None => {
            return None;
        },
        Some(p) => p,
    };
    let pri_key = lit_pri_key_vec();
    if !check_lit(s, j2, &pri_key) {
        return None;
    }
    let pri_res = parse_num(s, j2 + pri_key.len());
    let (priv64, j3) = match pri_res {
        None => {
            return None;
        },
        Some(p) => p,
    };
    if priv64 > 255 {
        return None;
    }
    let comp_key = lit_comp_key_vec();
    if !check_lit(s, j3, &comp_key) {
        return None;
    }
    let j4 = j3 + comp_key.len();
    let lit_true = lit_true_vec();
    let lit_false = lit_false_vec();
    let (completed, j5): (bool, usize) = if check_lit(s, j4, &lit_true) {
        (true, j4 + 4)
    } else if check_lit(s, j4, &lit_false) {
        (false, j4 + 5)
    } else {
        return None;
    };
    if j5 < n && s[j5] == '}' {
        let t = Todo {
            id: idv as usize,
            name: chars_to_string(&name_chars),
            priority: priv64 as u8,
            completed,
        };
        Some((t, j5 + 1))
    } else {
        None
    }
}

/// Reads the comma-separated records from `i` up to and including `]`.
fn parse_items(s: &Vec<char>, i: usize) -> (r: Option<(Vec<Todo>, usize)>)
    ensures
        p_items(s@, i as int) is None ==> r is None,
        p_items(s@, i as int) matches Some((l, j)) ==> (r matches Some((lv, jv)) && views(lv@) == l
            && jv == j),
    decreases s@.len() - i,
{
    let n = s.len();
    let first = parse_todo(s, i);
    let (t, j) = match first {
        None => {
            return None;
        },
        Some(p) => p,
    };
    if j <= i || j > n {
        return None;
    }
    if j < n && s[j] == ',' {
        match parse_items(s, j + 1) {
            None => None,
            Some((mut lv, jv)) => {
                lv.insert(0, t);
                proof {
                    let spec_l = (p_items(s@, (j + 1) as int)->Some_0).0;
                    assert(views(lv@) =~= seq![t@] + spec_l);
                }
                Some((lv, jv))
            },
        }
    } else if j < n && s[j] == ']' {
        let mut one: Vec<Todo> = Vec::new();
        one.push(t);
        proof {
            assert(views(one@) =~= seq![t@]);
        }
        Some((one, j + 1))
    } else {
        None
    }
}

/// Reads a whole stored list.
fn parse_list(s: &Vec<char>) -> (r: Option<Vec<Todo>>)
    ensures
        p_list(s@) is None ==> r is None,
        p_list(s@) matches Some(l) ==> (r matches Some(v) && views(v@) == l),
{
    let n = s.len();
    if n == 0 {
        return None;
    }
    if s[0] != '[' {
        return None;
    }
    if n == 2 && s[1] == ']' {
        let none_yet: Vec<Todo> = Vec::new();
        proof {
            assert(views(none_yet@) =~= Seq::<TodoView>::empty());
        }
        return Some(none_yet);
    }
    match parse_items(s, 1) {
        None => None,
        Some((v, j)) => if j == n {
            Some(v)
        } else {
            None
        },
    }
}

impl Todo {
    /// Decodes stored text into records: empty content is an empty list,
    /// and content that does not parse as the expected array shape falls
    /// back to an empty list.
    pub fn load_records(content: &str) -> (r: Vec<Todo>)
        ensures
            views(r@) == spec_load(content@),
    {
        let chars = to_char_vec(content);
        if chars.len() == 0 {
            let empty_list: Vec<Todo> = Vec::new();
            proof {
                assert(views(empty_list@) =~= Seq::<TodoView>::empty());
            }
            return empty_list;
        }
        match parse_list(&chars) {
            Some(v) => v,
            None => {
                let empty_list: Vec<Todo> = Vec::new();
                proof {
                    assert(views(empty_list@) =~= Seq::<TodoView>::empty());
                }
                empty_list
            },
        }
    }
}

impl Todo {
    /// Encodes a record list into its stored text form.
    pub fn save_records(records: &Vec<Todo>) -> (r: String)
        ensures
            r@ == enc_list(views(records@)),
    {
        let n = records.len();
        let mut out: Vec<char> = Vec::new();
        out.push('[');
        if n == 0 {
            out.push(']');
            proof {
                assert(views(records@) =~= Seq::<TodoView>::empty());
                assert(out@ =~= enc_list(views(records@)));
            }
            return chars_to_string(&out);
        }
        let mut i: usize = 0;
        proof {
            assert(out@ =~= seq!['[']);
        }
        while i < n
            invariant
                n == records@.len(),
                n >= 1,
                i <= n,
                i == 0 ==> out@ == seq!['['],
                i >= 1 ==> out@ == seq!['['] + enc_items(views(records@.take(i as int))),
            decreases n - i,
        {
            if i > 0 {
                out.push(',');
            }
            push_todo(&mut out, &records[i]);
            proof {
                let prev = views(records@.take(i as int));
                let next = views(records@.take((i + 1) as int));
                assert(next =~= prev.push(records@[i as int]@));
                if i == 0 {
                    assert(next =~= seq![records@[0]@]);
                    assert(enc_items(next) == enc_todo(records@[0]@));
                    assert(out@ =~= seq!['['] + enc_items(next));
                } else {
                    lemma_enc_items_snoc(prev, records@[i as int]@);
                    assert(out@ =~= seq!['['] + enc_items(next));
                }
            }
            i += 1;
        }
        out.push(']');
        proof {
            assert(records@.take(n as int) =~= records@);
            assert(out@ =~= enc_list(views(records@)));
        }
        chars_to_string(&out)
    }
}

// ---------------------------------------------------------------------
// Round trip: the reader inverts the writer.
// ---------------------------------------------------------------------
/// A record view within the machine ranges of the exec fields.
pub open spec fn wf_view(t: TodoView) -> bool {
    0 <= t.id <= usize::MAX as int && 0 <= t.priority <= 255
}

/// Powers of ten.
spec fn pow10(k: nat) -> nat
    decreases k,
{
    if k == 0 {
        1
    } else {
        10 * pow10((k - 1) as nat)
    }
}

/// A decimal digit character reads back as its value.
proof fn lemma_digit_char_val(d: int)
    requires
        0 <= d <= 9,
    ensures
        is_digit(digit_char(d)),
        digit_val(digit_char(d)) == d,
{
}

/// A hexadecimal digit character reads back as its value.
proof fn lemma_hex_char_val(d: int)
    requires
        0 <= d <= 15,
    ensures
        is_hex(hex_char(d)),
        hex_val(hex_char(d)) == d,
{
    if d < 10 {
        lemma_digit_char_val(d);
    }
}

/// A decimal representation is nonempty and all digits.
proof fn lemma_dec_rep_digits(n: nat)
    ensures
        dec_rep(n).len() >= 1,
        forall|m: int| 0 <= m < dec_rep(n).len() ==> is_digit(#[trigger] dec_rep(n)[m]),
    decreases n,
{
    if n < 10 {
        lemma_digit_char_val(n as int);
    } else {
        lemma_dec_rep_digits(n / 10);
        lemma_digit_char_val((n % 10) as int);
        assert forall|m: int| 0 <= m < dec_rep(n).len() implies is_digit(
            #[trigger] dec_rep(n)[m],
        ) by {
            if m < dec_rep(n / 10).len() {
                assert(dec_rep(n)[m] == dec_rep(n / 10)[m]);
            } else {
                assert(dec_rep(n)[m] == digit_char((n % 10) as int));
            }
        }
    }
}

/// Scanning the representation of `n` folds exactly `n` onto the value.
proof fn lemma_scan_digits(s: Seq<char>, i: int, n: nat, acc: nat)
    requires
        0 <= i,
        i + dec_rep(n).len() <= s.len(),
        s.subrange(i, i + dec_rep(n).len()) == dec_rep(n),
    ensures
        p_digits(s, i, acc) == p_digits(
            s,
            i + dec_rep(n).len(),
            (acc * pow10(dec_rep(n).len() as nat) + n) as nat,
        ),
    decreases n,
{
    lemma_dec_rep_digits(n);
    if n < 10 {
        assert(s[i] == dec_rep(n)[0]);
        lemma_digit_char_val(n as int);
        assert(pow10(0) == 1);
        assert(pow10(1) == 10);
        assert(p_digits(s, i, acc) == p_digits(s, i + 1, (acc * 10 + n) as nat));
    } else {
        let rep = dec_rep(n);
        let rep1 = dec_rep(n / 10);
        let l1 = rep1.len() as int;
        let l = rep.len() as int;
        assert(rep == rep1.push(digit_char((n % 10) as int)));
        assert(s.subrange(i, i + l1) =~= rep1) by {
            assert forall|m: int| 0 <= m < l1 implies s.subrange(i, i + l1)[m] == rep1[m] by {
                assert(s[i + m] == rep[m]);
                assert(rep[m] == rep1[m]);
            }
        }
        lemma_scan_digits(s, i, n / 10, acc);
        let mid: nat = (acc * pow10(rep1.len()) + n / 10) as nat;
        assert(s[i + l1] == rep[l1]);
        assert(rep[l1] == digit_char((n % 10) as int));
        lemma_digit_char_val((n % 10) as int);
        assert(p_digits(s, i + l1, mid) == p_digits(s, i + l, (mid * 10 + (n % 10)) as nat));
        assert(pow10(rep.len() as nat) == 10 * pow10(rep1.len() as nat));
        let q = n / 10;
        let rm = n % 10;
        assert(n == 10 * q + rm);
        assert((acc * pow10(rep1.len()) + q) * 10 + rm == acc * (10 * pow10(rep1.len())) + (10 * q
            + rm)) by (nonlinear_arith);
    }
}

/// A number written by the writer, followed by a non-digit, reads back as
/// itself.
proof fn lemma_parse_nat_of_rep(s: Seq<char>, i: int, n: nat)
    requires
        0 <= i,
        i + dec_rep(n).len() <= s.len(),
        s.subrange(i, i + dec_rep(n).len()) == dec_rep(n),
        i + dec_rep(n).len() == s.len() || !is_digit(s[i + dec_rep(n).len()]),
    ensures
        p_nat(s, i) == Some((n, i + dec_rep(n).len())),
{
    lemma_dec_rep_digits(n);
    assert(s[i] == dec_rep(n)[0]);
    lemma_scan_digits(s, i, n, 0);
    assert(0 * pow10(dec_rep(n).len() as nat) == 0) by (nonlinear_arith);
    assert(p_digits(s, i + dec_rep(n).len(), n) == (n, i + dec_rep(n).len()));
}

/// A byte-sized code point survives the trip through `u8` and back to a
/// character.
proof fn lemma_small_char_cast(c: char)
    requires
        (c as u32) < 0x20,
    ensures
        (((c as u32) as u8) as char) == c,
{
    vstd::utf8::char_u32_cast(c, c as u32);
    let u: u32 = c as u32;
    assert(u < 0x20 ==> ((u as u8) as u32) == u) by (bit_vector);
    assert(((u as u8) as char) == (u as char));
}

/// An escaped name, closed by a quote, reads back as the name.
#[verifier::rlimit(100)]
proof fn lemma_parse_str_of_esc(s: Seq<char>, i: int, name: Seq<char>)
    requires
        0 <= i,
        i + esc(name).len() + 1 <= s.len(),
        s.subrange(i, i + esc(name).len()) == esc(name),
        s[i + esc(name).len()] == '"',
    ensures
        p_str_body(s, i) == Some((name, i + esc(name).len() + 1)),
    decreases name.len(),
{
    if name.len() == 0 {
        assert(s[i] == '"');
    } else {
        let c = name[0];
        let e0 = esc_char(c);
        let name1 = name.drop_first();
        assert(esc(name) == e0 + esc(name1));
        let l0 = e0.len() as int;
        let l = esc(name).len() as int;
        assert forall|m: int| 0 <= m < l0 implies s[i + m] == e0[m] by {
            assert(s[i + m] == esc(name)[m]);
        }
        assert(s.subrange(i + l0, i + l) =~= esc(name1)) by {
            assert forall|m: int| 0 <= m < esc(name1).len() implies s.subrange(i + l0, i + l)[m]
                == esc(name1)[m] by {
                assert(s[i + l0 + m] == esc(name)[l0 + m]);
            }
        }
        lemma_parse_str_of_esc(s, i + l0, name1);
        assert(seq![c] + name1 =~= name);
        if c == '"' {
            assert(s[i] == '\\' && s[i + 1] == '"');
        } else if c == '\\' {
            assert(s[i] == '\\' && s[i + 1] == '\\');
        } else if c == '\u{8}' {
            assert(s[i] == '\\' && s[i + 1] == 'b');
        } else if c == '\u{c}' {
            assert(s[i] == '\\' && s[i + 1] == 'f');
        } else if c == '\n' {
            assert(s[i] == '\\' && s[i + 1] == 'n');
        } else if c == '\r' {
            assert(s[i] == '\\' && s[i + 1] == 'r');
        } else if c == '\t' {
            assert(s[i] == '\\' && s[i + 1] == 't');
        } else if (c as u32) < 0x20 {
            let hi = (c as u32) as int / 16;
            let lo = (c as u32) as int % 16;
            assert(s[i] == '\\' && s[i + 1] == 'u' && s[i + 2] == '0' && s[i + 3] == '0');
            assert(s[i + 4] == hex_char(hi) && s[i + 5] == hex_char(lo));
            lemma_hex_char_val(hi);
            lemma_hex_char_val(lo);
            assert(hex_val('0') == 0);
            let v = ((hex_val(s[i + 2]) * 16 + hex_val(s[i + 3])) * 16 + hex_val(s[i + 4])) * 16
                + hex_val(s[i + 5]);
            assert(v == hi * 16 + lo);
            assert(v == c as u32);
            lemma_small_char_cast(c);
            assert(((v as u8) as char) == c);
        } else {
            assert(s[i] == c);
            assert(c != '"' && c != '\\' && (c as u32) >= 0x20);
        }
    }
}

/// A piece of an encoded stretch stands verbatim in the surrounding text.
proof fn lemma_enc_piece(s: Seq<char>, i: int, e: Seq<char>, off: int, piece: Seq<char>)
    requires
        0 <= i,
        i + e.len() <= s.len(),
        s.subrange(i, i + e.len()) == e,
        0 <= off,
        off + piece.len() <= e.len(),
        e.subrange(off, off + piece.len()) == piece,
    ensures
        at_lit(s, i + off, piece),
        s.subrange(i + off, i + off + piece.len()) == piece,
{
    assert(s.subrange(i + off, i + off + piece.len()) =~= piece) by {
        assert forall|m: int| 0 <= m < piece.len() implies s.subrange(
            i + off,
            i + off + piece.len(),
        )[m] == piece[m] by {
            assert(s[i + off + m] == e[off + m]);
            assert(e[off + m] == e.subrange(off, off + piece.len())[m]);
        }
    }
}

/// An encoded record reads back as itself.
#[verifier::rlimit(100)]
proof fn lemma_parse_todo_of_enc(s: Seq<char>, i: int, t: TodoView)
    requires
        wf_view(t),
        0 <= i,
        i + enc_todo(t).len() <= s.len(),
        s.subrange(i, i + enc_todo(t).len()) == enc_todo(t),
    ensures
        p_todo(s, i) == Some((t, i + enc_todo(t).len())),
{
    let e = enc_todo(t);
    let pa = lit_obj_open();
    let pb = dec_rep(t.id as nat);
    let pc = lit_name_key();
    let pd = esc(t.name);
    let pe = lit_pri_key();
    let pf = dec_rep(t.priority as nat);
    let pg = lit_comp_key();
    let ph = bool_rep(t.completed);
    let o1 = i + pa.len();
    let o2 = o1 + pb.len();
    let o3 = o2 + pc.len();
    let o4 = o3 + pd.len();
    let o5 = o4 + 1;
    let o6 = o5 + pe.len();
    let o7 = o6 + pf.len();
    let o8 = o7 + pg.len();
    let o9 = o8 + ph.len();
    assert(e.subrange(0, pa.len() as int) =~= pa);
    lemma_enc_piece(s, i, e, 0, pa);
    assert(e.subrange(o1 - i, o2 - i) =~= pb);
    lemma_enc_piece(s, i, e, o1 - i, pb);
    assert(e.subrange(o2 - i, o3 - i) =~= pc);
    lemma_enc_piece(s, i, e, o2 - i, pc);
    assert(e.subrange(o3 - i, o4 - i) =~= pd);
    lemma_enc_piece(s, i, e, o3 - i, pd);
    assert(e.subrange(o5 - i, o6 - i) =~= pe);
    lemma_enc_piece(s, i, e, o5 - i, pe);
    assert(e.subrange(o6 - i, o7 - i) =~= pf);
    lemma_enc_piece(s, i, e, o6 - i, pf);
    assert(e.subrange(o7 - i, o8 - i) =~= pg);
    lemma_enc_piece(s, i, e, o7 - i, pg);
    assert(e.subrange(o8 - i, o9 - i) =~= ph);
    lemma_enc_piece(s, i, e, o8 - i, ph);
    assert(s[o4] == e[o4 - i]);
    assert(e[o4 - i] == '"');
    assert(s[o9] == e[o9 - i]);
    assert(e[o9 - i] == '}');
    assert(s[o2] == e[o2 - i]);
    assert(e[o2 - i] == ',');
    assert(!is_digit(','));
    lemma_parse_nat_of_rep(s, o1, t.id as nat);
    lemma_parse_str_of_esc(s, o3, t.name);
    assert(s[o7] == e[o7 - i]);
    assert(e[o7 - i] == ',');
    lemma_parse_nat_of_rep(s, o6, t.priority as nat);
    if t.completed {
        assert(at_lit(s, o8, bool_rep(true)));
    } else {
        assert(!at_lit(s, o8, bool_rep(true))) by {
            if at_lit(s, o8, bool_rep(true)) {
                assert(s.subrange(o8, o8 + 4)[0] == 't');
                assert(s[o8] == 'f');
            }
        }
        assert(at_lit(s, o8, bool_rep(false)));
    }
    assert(p_todo(s, i) == Some((t, i + e.len())));
}

/// A nonempty encoded body is nonempty text.
proof fn lemma_enc_items_len(l: Seq<TodoView>)
    requires
        l.len() >= 1,
    ensures
        enc_items(l).len() >= enc_todo(l[0]).len(),
        enc_todo(l[0]).len() >= 6,
{
}

/// An encoded record body, closed by `]`, reads back as its records.
proof fn lemma_parse_items_of_enc(s: Seq<char>, i: int, l: Seq<TodoView>)
    requires
        l.len() >= 1,
        forall|m: int| 0 <= m < l.len() ==> wf_view(#[trigger] l[m]),
        0 <= i,
        i + enc_items(l).len() + 1 <= s.len(),
        s.subrange(i, i + enc_items(l).len()) == enc_items(l),
        s[i + enc_items(l).len()] == ']',
    ensures
        p_items(s, i) == Some((l, i + enc_items(l).len() + 1)),
    decreases l.len(),
{
    lemma_enc_items_len(l);
    if l.len() == 1 {
        assert(enc_items(l) == enc_todo(l[0]));
        lemma_parse_todo_of_enc(s, i, l[0]);
        let j = i + enc_todo(l[0]).len();
        assert(s[j] == ']');
        assert(seq![l[0]] =~= l);
    } else {
        let e = enc_items(l);
        let e0 = enc_todo(l[0]);
        let l1 = l.drop_first();
        let rest = enc_items(l1);
        assert(e == e0 + seq![','] + rest);
        assert(e.subrange(0, e0.len() as int) =~= e0);
        lemma_enc_piece(s, i, e, 0, e0);
        lemma_parse_todo_of_enc(s, i, l[0]);
        let j = i + e0.len();
        assert(s[j] == e[j - i]);
        assert(e[j - i] == ',');
        let off = e0.len() + 1;
        assert(e.subrange(off as int, (off + rest.len()) as int) =~= rest);
        lemma_enc_piece(s, i, e, off as int, rest);
        assert(forall|m: int| 0 <= m < l1.len() ==> wf_view(#[trigger] l1[m]));
        lemma_enc_items_len(l1);
        assert(s[j + 1 + rest.len()] == ']');
        lemma_parse_items_of_enc(s, j + 1, l1);
        assert(seq![l[0]] + l1 =~= l);
    }
}

/// Saving a record list and loading the text back yields exactly the
/// records that were saved, field for field.
pub proof fn lemma_save_load_round_trip(records: Seq<Todo>)
    ensures
        spec_load(enc_list(views(records))) == views(records),
{
    let l = views(records);
    let s = enc_list(l);
    assert(forall|m: int| 0 <= m < l.len() ==> wf_view(#[trigger] l[m]));
    if l.len() == 0 {
        assert(s[0] == '[' && s[1] == ']');
        assert(p_list(s) == Some(Seq::<TodoView>::empty()));
        assert(spec_load(s) =~= l);
    } else {
        let body = enc_items(l);
        lemma_enc_items_len(l);
        assert(s == seq!['['] + body + seq![']']);
        assert(s.len() == body.len() + 2);
        assert(s[0] == '[');
        assert(s.subrange(1, 1 + body.len() as int) =~= body);
        assert(s[1 + body.len() as int] == ']');
        lemma_parse_items_of_enc(s, 1, l);
        assert(p_items(s, 1) == Some((l, s.len() as int)));
        assert(p_list(s) == Some(l));
    }
}

} // verus!
