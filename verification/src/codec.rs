//! The entity codec: escaping of the five reserved XML characters and
//! decoding of named and numeric character references.

use crate::strutil::{char_from_u32, chars_to_string, str_to_chars, subvec};
use vstd::prelude::*;

verus! {

/// Holds exactly of the Unicode scalar values, the codes a `char` can carry.
pub open spec fn is_scalar_value(v: u32) -> bool {
    v < 0xD800 || (0xE000 <= v && v <= 0x10FFFF)
}

/// The index of the first occurrence of `c` in `s`, if any.
pub open spec fn find_char(s: Seq<char>, c: char) -> Option<int>
    decreases s.len(),
{
    if s.len() == 0 {
        None
    } else if s[0] == c {
        Some(0)
    } else {
        match find_char(s.drop_first(), c) {
            Some(i) => Some(i + 1),
            None => None,
        }
    }
}

pub proof fn lemma_find_char(s: Seq<char>, c: char)
    ensures
        match find_char(s, c) {
            Some(i) => 0 <= i < s.len() && s[i] == c && (forall|j: int| 0 <= j < i ==> s[j] != c),
            None => forall|j: int| 0 <= j < s.len() ==> s[j] != c,
        },
    decreases s.len(),
{
    if s.len() > 0 && s[0] != c {
        let d = s.drop_first();
        lemma_find_char(d, c);
        assert(forall|j: int| 0 <= j < d.len() ==> d[j] == s[j + 1]);
        match find_char(d, c) {
            Some(i) => {
                assert(s[i + 1] == d[i]);
                assert forall|j: int| 0 <= j < i + 1 implies s[j] != c by {
                    if j > 0 {
                        assert(s[j] == d[j - 1]);
                    }
                }
            },
            None => {
                assert forall|j: int| 0 <= j < s.len() implies s[j] != c by {
                    if j > 0 {
                        assert(s[j] == d[j - 1]);
                    }
                }
            },
        }
    }
}

pub proof fn lemma_find_char_at(s: Seq<char>, c: char, i: int)
    requires
        0 <= i < s.len(),
        s[i] == c,
        forall|j: int| 0 <= j < i ==> s[j] != c,
    ensures
        find_char(s, c) == Some(i),
    decreases s.len(),
{
    if i > 0 {
        lemma_find_char_at(s.drop_first(), c, i - 1);
    }
}

pub proof fn lemma_find_char_none(s: Seq<char>, c: char)
    requires
        forall|j: int| 0 <= j < s.len() ==> s[j] != c,
    ensures
        find_char(s, c) is None,
    decreases s.len(),
{
    if s.len() > 0 {
        lemma_find_char_none(s.drop_first(), c);
    }
}

/// The expansion of one character under escaping: each of the five reserved
/// characters becomes its named entity, every other character stays itself.
pub open spec fn escape_char_seq(c: char) -> Seq<char> {
    if c == '&' {
        seq!['&', 'a', 'm', 'p', ';']
    } else if c == '<' {
        seq!['&', 'l', 't', ';']
    } else if c == '>' {
        seq!['&', 'g', 't', ';']
    } else if c == '\'' {
        seq!['&', 'a', 'p', 'o', 's', ';']
    } else if c == '"' {
        seq!['&', 'q', 'u', 'o', 't', ';']
    } else {
        seq![c]
    }
}

/// The escaped form of a whole character sequence.
pub open spec fn escape_seq(s: Seq<char>) -> Seq<char>
    decreases s.len(),
{
    if s.len() == 0 {
        Seq::empty()
    } else {
        escape_char_seq(s[0]) + escape_seq(s.drop_first())
    }
}

pub proof fn lemma_escape_seq_push(s: Seq<char>, c: char)
    ensures
        escape_seq(s.push(c)) == escape_seq(s) + escape_char_seq(c),
    decreases s.len(),
{
    let t = s.push(c);
    if s.len() == 0 {
        assert(t[0] == c);
        assert(t.drop_first() =~= Seq::<char>::empty());
        assert(escape_seq(t) == escape_char_seq(c) + escape_seq(t.drop_first()));
        assert(escape_seq(Seq::<char>::empty()) == Seq::<char>::empty());
        assert(escape_seq(t) =~= escape_seq(s) + escape_char_seq(c));
    } else {
        assert(t[0] == s[0]);
        assert(t.drop_first() =~= s.drop_first().push(c));
        lemma_escape_seq_push(s.drop_first(), c);
        assert(escape_seq(t) == escape_char_seq(t[0]) + escape_seq(t.drop_first()));
        assert(escape_seq(s) == escape_char_seq(s[0]) + escape_seq(s.drop_first()));
        assert(escape_seq(t) =~= escape_seq(s) + escape_char_seq(c));
    }
}

/// Escaping never shortens a text: each character becomes itself or a
/// longer entity.
pub proof fn lemma_escape_len(s: Seq<char>)
    ensures
        escape_seq(s).len() >= s.len(),
    decreases s.len(),
{
    if s.len() > 0 {
        lemma_escape_len(s.drop_first());
    }
}

/// Escapes `'`, `"`, `&`, `<`, and `>` with the appropriate XML entities.
pub fn escape(input: &str) -> (r: String)
    ensures
        r@ == escape_seq(input@),
{
    let chars = str_to_chars(input);
    let mut out: Vec<char> = Vec::new();
    let mut i: usize = 0;
    while i < chars.len()
        invariant
            i <= chars.len(),
            chars@ == input@,
            out@ == escape_seq(input@.take(i as int)),
        decreases chars.len() - i,
    {
        let c = chars[i];
        if c == '&' {
            out.push('&');
            out.push('a');
            out.push('m');
            out.push('p');
            out.push(';');
        } else if c == '<' {
            out.push('&');
            out.push('l');
            out.push('t');
            out.push(';');
        } else if c == '>' {
            out.push('&');
            out.push('g');
            out.push('t');
            out.push(';');
        } else if c == '\'' {
            out.push('&');
            out.push('a');
            out.push('p');
            out.push('o');
            out.push('s');
            out.push(';');
        } else if c == '"' {
            out.push('&');
            out.push('q');
            out.push('u');
            out.push('o');
            out.push('t');
            out.push(';');
        } else {
            out.push(c);
        }
        proof {
            lemma_escape_seq_push(input@.take(i as int), input@[i as int]);
            assert(input@.take(i as int).push(input@[i as int]) =~= input@.take(i as int + 1));
            assert(out@ =~= escape_seq(input@.take(i as int + 1)));
        }
        i += 1;
    }
    proof {
        assert(input@.take(input@.len() as int) =~= input@);
    }
    chars_to_string(&out)
}

/// The character a named entity stands for, for the five recognized names.
pub open spec fn named_entity_char(ent: Seq<char>) -> Option<char> {
    if ent == seq!['q', 'u', 'o', 't'] {
        Some('"')
    } else if ent == seq!['a', 'p', 'o', 's'] {
        Some('\'')
    } else if ent == seq!['g', 't'] {
        Some('>')
    } else if ent == seq!['l', 't'] {
        Some('<')
    } else if ent == seq!['a', 'm', 'p'] {
        Some('&')
    } else {
        None
    }
}

/// The value of one digit in the given radix, if it is a digit of that radix.
pub open spec fn digit_val(c: char, radix: int) -> Option<int> {
    let u = c as u32 as int;
    let v = if '0' as u32 <= u && u <= '9' as u32 {
        Some(u - '0' as u32)
    } else if 'a' as u32 <= u && u <= 'z' as u32 {
        Some(u - 'a' as u32 + 10)
    } else if 'A' as u32 <= u && u <= 'Z' as u32 {
        Some(u - 'A' as u32 + 10)
    } else {
        None
    };
    match v {
        Some(d) => if d < radix {
            Some(d)
        } else {
            None
        },
        None => None,
    }
}

/// The value of a non-empty digit string in the given radix; `None` if the
/// string is empty or holds a character that is no digit of that radix.
pub open spec fn digits_val(s: Seq<char>, radix: int) -> Option<int>
    decreases s.len(),
{
    if s.len() == 0 {
        None
    } else if s.len() == 1 {
        digit_val(s[0], radix)
    } else {
        match (digits_val(s.drop_last(), radix), digit_val(s.last(), radix)) {
            (Some(hi), Some(lo)) => Some(hi * radix + lo),
            _ => None,
        }
    }
}

/// The numeric value of a character-reference body: an optional leading `+`
/// followed by at least one digit, as `u32::from_str_radix` accepts it.
pub open spec fn radix_number(s: Seq<char>, radix: int) -> Option<int> {
    if s.len() >= 1 && s[0] == '+' {
        digits_val(s.drop_first(), radix)
    } else {
        digits_val(s, radix)
    }
}

/// The character an entity body (the text between `&` and `;`) denotes:
/// one of the five names, or a decimal or hexadecimal character reference
/// whose value is a Unicode scalar value that fits in a `u32`.
pub open spec fn entity_char(ent: Seq<char>) -> Option<char> {
    match named_entity_char(ent) {
        Some(c) => Some(c),
        None => {
            let v = if ent.len() >= 2 && ent[0] == '#' && ent[1] == 'x' {
                radix_number(ent.skip(2), 16)
            } else if ent.len() >= 1 && ent[0] == '#' {
                radix_number(ent.skip(1), 10)
            } else {
                None
            };
            match v {
                Some(n) => if 0 <= n <= u32::MAX && is_scalar_value(n as u32) {
                    Some(n as u32 as char)
                } else {
                    None
                },
                None => None,
            }
        },
    }
}

/// The part of a text that belongs to the current `&`-started fragment:
/// everything up to, and not including, the next `&`.
pub open spec fn amp_segment(r: Seq<char>) -> Seq<char> {
    match find_char(r, '&') {
        Some(j) => r.take(j),
        None => r,
    }
}

/// What unescaping a text yields: each fragment introduced by a `&` must hold
/// a `;`-terminated entity, which is replaced by the character it denotes;
/// a fragment with no `;`, or with an unrecognized or invalid entity, is an
/// error carrying the offending fragment.
pub open spec fn unescape_seq(s: Seq<char>) -> Result<Seq<char>, Seq<char>>
    decreases s.len(),
    via unescape_seq_decreases
{
    if s.len() == 0 {
        Ok(Seq::empty())
    } else if s[0] != '&' {
        match unescape_seq(s.drop_first()) {
            Ok(t) => Ok(seq![s[0]] + t),
            Err(e) => Err(e),
        }
    } else {
        let r = s.drop_first();
        let seg = amp_segment(r);
        match find_char(seg, ';') {
            None => Err(seq!['&'] + seg),
            Some(k) => {
                let ent = seg.take(k);
                match entity_char(ent) {
                    None => Err(seq!['&'] + ent + seq![';']),
                    Some(c) => match unescape_seq(r.skip(k + 1)) {
                        Ok(t) => Ok(seq![c] + t),
                        Err(e) => Err(e),
                    },
                }
            },
        }
    }
}

#[via_fn]
proof fn unescape_seq_decreases(s: Seq<char>) {
    if s.len() > 0 && s[0] == '&' {
        let r = s.drop_first();
        lemma_find_char(r, '&');
        let seg = amp_segment(r);
        lemma_find_char(seg, ';');
    }
}

/// The views of a string-or-string result.
pub open spec fn str_result_view(r: Result<String, String>) -> Result<Seq<char>, Seq<char>> {
    match r {
        Ok(s) => Ok(s@),
        Err(e) => Err(e@),
    }
}

proof fn lemma_digits_val_push(s: Seq<char>, c: char, radix: int)
    ensures
        digits_val(s.push(c), radix) == (if s.len() == 0 {
            digit_val(c, radix)
        } else {
            match (digits_val(s, radix), digit_val(c, radix)) {
                (Some(hi), Some(lo)) => Some(hi * radix + lo),
                _ => None,
            }
        }),
{
    let t = s.push(c);
    assert(t.drop_last() =~= s);
    assert(t.last() == c);
}

proof fn lemma_digits_val_bad(s: Seq<char>, radix: int, m: int)
    requires
        0 <= m < s.len(),
        digit_val(s[m], radix) is None,
    ensures
        digits_val(s, radix) is None,
    decreases s.len(),
{
    if s.len() > 1 && m < s.len() - 1 {
        lemma_digits_val_bad(s.drop_last(), radix, m);
    }
}

/// The value of one digit character in the given radix.
fn digit_value(c: char, radix: u32) -> (r: Option<u32>)
    requires
        radix == 10 || radix == 16,
    ensures
        match digit_val(c, radix as int) {
            Some(d) => r == Some(d as u32),
            None => r is None,
        },
{
    let u = c as u32;
    let v: u32 = if u >= '0' as u32 && u <= '9' as u32 {
        u - '0' as u32
    } else if u >= 'a' as u32 && u <= 'z' as u32 {
        u - 'a' as u32 + 10
    } else if u >= 'A' as u32 && u <= 'Z' as u32 {
        u - 'A' as u32 + 10
    } else {
        return None;
    };
    if v < radix {
        Some(v)
    } else {
        None
    }
}

proof fn lemma_digits_val_nonneg(s: Seq<char>, radix: int)
    requires
        radix >= 2,
    ensures
        digits_val(s, radix) matches Some(x) ==> x >= 0,
    decreases s.len(),
{
    if s.len() > 1 {
        lemma_digits_val_nonneg(s.drop_last(), radix);
        if digits_val(s, radix) is Some {
            let hi = digits_val(s.drop_last(), radix)->Some_0;
            assert(hi * radix >= 0) by (nonlinear_arith)
                requires
                    hi >= 0,
                    radix >= 0,
            ;
        }
    }
}

proof fn lemma_radix_number_nonneg(s: Seq<char>, radix: int)
    requires
        radix >= 2,
    ensures
        radix_number(s, radix) matches Some(x) ==> x >= 0,
{
    if s.len() >= 1 && s[0] == '+' {
        lemma_digits_val_nonneg(s.drop_first(), radix);
    } else {
        lemma_digits_val_nonneg(s, radix);
    }
}

/// Parses the digits of a character reference; a value beyond `u32::MAX`
/// cannot name a character and parses as nothing.
#[verifier::loop_isolation(false)]
fn parse_u32_digits(v: &Vec<char>, start: usize, radix: u32) -> (r: Option<u32>)
    requires
        start <= v@.len(),
        radix == 10 || radix == 16,
    ensures
        match radix_number(v@.skip(start as int), radix as int) {
            Some(n) => if n <= u32::MAX {
                r == Some(n as u32)
            } else {
                r is None
            },
            None => r is None,
        },
{
    let mut i = start;
    if i < v.len() && v[i] == '+' {
        proof {
            assert(v@.skip(start as int)[0] == v@[start as int]);
            assert(v@.skip(start as int).drop_first() =~= v@.skip(start as int + 1));
        }
        i += 1;
    }
    let body_i = i;
    let ghost body = v@.skip(body_i as int);
    proof {
        if start < v@.len() {
            assert(v@.skip(start as int)[0] == v@[start as int]);
        }
        assert(radix_number(v@.skip(start as int), radix as int) == digits_val(
            body,
            radix as int,
        ));
    }
    let mut acc: u64 = 0;
    let mut over: bool = false;
    let mut j = body_i;
    if j == v.len() {
        return None;
    }
    while j < v.len()
        invariant
            body_i <= j <= v@.len(),
            body == v@.skip(body_i as int),
            acc <= u32::MAX,
            radix == 10 || radix == 16,
            j > body_i ==> match digits_val(v@.subrange(body_i as int, j as int), radix as int) {
                Some(x) => (over ==> x > u32::MAX) && (!over ==> x == acc),
                None => false,
            },
            j == body_i ==> acc == 0 && !over,
        decreases v@.len() - j,
    {
        let ghost pref = v@.subrange(body_i as int, j as int);
        let c = v[j];
        proof {
            assert(pref.push(c) =~= v@.subrange(body_i as int, j as int + 1));
            lemma_digits_val_push(pref, c, radix as int);
        }
        match digit_value(c, radix) {
            None => {
                proof {
                    assert(body[j - body_i] == c);
                    lemma_digits_val_bad(body, radix as int, j - body_i);
                }
                return None;
            },
            Some(d) => {
                if !over {
                    proof {
                        assert(acc as int * (radix as int) <= 4294967295int * 16) by (nonlinear_arith)
                            requires
                                0 <= acc <= 4294967295,
                                0 <= radix <= 16,
                        ;
                    }
                    let t: u64 = acc * (radix as u64) + (d as u64);
                    if t > u32::MAX as u64 {
                        over = true;
                    } else {
                        acc = t;
                    }
                } else {
                    proof {
                        let x = digits_val(pref, radix as int)->Some_0;
                        assert(x * (radix as int) >= x) by (nonlinear_arith)
                            requires
                                x >= 0,
                                radix >= 1,
                        ;
                    }
                }
            },
        }
        j += 1;
    }
    proof {
        assert(v@.subrange(body_i as int, v@.len() as int) =~= body);
    }
    if over {
        None
    } else {
        Some(acc as u32)
    }
}

/// The named part of [`entity_char`], decided on the characters themselves.
fn named_char(ent: &Vec<char>) -> (r: Option<char>)
    ensures
        r == named_entity_char(ent@),
{
    if ent.len() == 4 && ent[0] == 'q' && ent[1] == 'u' && ent[2] == 'o' && ent[3] == 't' {
        proof {
            assert(ent@ =~= seq!['q', 'u', 'o', 't']);
        }
        return Some('"');
    }
    if ent.len() == 4 && ent[0] == 'a' && ent[1] == 'p' && ent[2] == 'o' && ent[3] == 's' {
        proof {
            assert(ent@ =~= seq!['a', 'p', 'o', 's']);
        }
        return Some('\'');
    }
    if ent.len() == 2 && ent[0] == 'g' && ent[1] == 't' {
        proof {
            assert(ent@ =~= seq!['g', 't']);
        }
        return Some('>');
    }
    if ent.len() == 2 && ent[0] == 'l' && ent[1] == 't' {
        proof {
            assert(ent@ =~= seq!['l', 't']);
        }
        return Some('<');
    }
    if ent.len() == 3 && ent[0] == 'a' && ent[1] == 'm' && ent[2] == 'p' {
        proof {
            assert(ent@ =~= seq!['a', 'm', 'p']);
        }
        return Some('&');
    }
    proof {
        assert(named_entity_char(ent@) is None);
    }
    None
}

/// Decides [`entity_char`] for an entity body held in a vector.
fn entity_char_exec(ent: &Vec<char>) -> (r: Option<char>)
    ensures
        r == entity_char(ent@),
{
    match named_char(ent) {
        Some(c) => Some(c),
        None => {
            if ent.len() >= 2 {
                let c0 = ent[0];
                let c1 = ent[1];
                if c0 == '#' && c1 == 'x' {
                    proof {
                        lemma_radix_number_nonneg(ent@.skip(2), 16);
                    }
                    return match parse_u32_digits(ent, 2, 16) {
                        Some(u) => char_from_u32(u),
                        None => None,
                    };
                }
            }
            if ent.len() >= 1 && ent[0] == '#' {
                proof {
                    lemma_radix_number_nonneg(ent@.skip(1), 10);
                }
                match parse_u32_digits(ent, 1, 10) {
                    Some(u) => char_from_u32(u),
                    None => None,
                }
            } else {
                None
            }
        },
    }
}

/// Holds when every character of `s` is one of the five reserved characters.
pub open spec fn reserved_only(s: Seq<char>) -> bool {
    forall|i: int|
        0 <= i < s.len() ==> (s[i] == '&' || s[i] == '<' || s[i] == '>' || s[i] == '\'' || s[i]
            == '"')
}

/// Round-trip law: for every string over the five reserved characters,
/// unescaping its escaped form gives the string back.
pub proof fn lemma_unescape_escape(s: Seq<char>)
    requires
        reserved_only(s),
    ensures
        unescape_seq(escape_seq(s)) == Ok::<Seq<char>, Seq<char>>(s),
    decreases s.len(),
{
    if s.len() == 0 {
        assert(s =~= Seq::<char>::empty());
    } else {
        let c = s[0];
        let rest = s.drop_first();
        assert forall|i: int| 0 <= i < rest.len() implies (rest[i] == '&' || rest[i] == '<'
            || rest[i] == '>' || rest[i] == '\'' || rest[i] == '"') by {
            assert(rest[i] == s[i + 1]);
        }
        lemma_unescape_escape(rest);
        let name: Seq<char> = if c == '&' {
            seq!['a', 'm', 'p']
        } else if c == '<' {
            seq!['l', 't']
        } else if c == '>' {
            seq!['g', 't']
        } else if c == '\'' {
            seq!['a', 'p', 'o', 's']
        } else {
            seq!['q', 'u', 'o', 't']
        };
        let ec = escape_char_seq(c);
        let er = escape_seq(rest);
        assert(ec =~= seq!['&'] + name + seq![';']);
        assert(named_entity_char(name) == Some(c));
        assert(forall|i: int| 0 <= i < name.len() ==> name[i] != '&' && name[i] != ';');
        let full = escape_seq(s);
        assert(full == ec + er);
        let r = full.drop_first();
        assert(r =~= name + seq![';'] + er);
        let nl = name.len() as int;
        assert(r[nl] == ';');
        if rest.len() == 0 {
            lemma_find_char_none(r, '&');
        } else {
            let c2 = rest[0];
            assert(er == escape_char_seq(c2) + escape_seq(rest.drop_first()));
            assert(escape_char_seq(c2)[0] == '&');
            assert(r[nl + 1] == er[0]);
            assert(forall|j: int| 0 <= j < nl + 1 ==> r[j] != '&');
            lemma_find_char_at(r, '&', nl + 1);
        }
        let seg = amp_segment(r);
        assert(seg =~= name + seq![';']);
        assert(forall|j: int| 0 <= j < nl ==> seg[j] != ';');
        lemma_find_char_at(seg, ';', nl);
        assert(seg.take(nl) =~= name);
        assert(r.skip(nl + 1) =~= er);
        match unescape_seq(er) {
            Ok(t) => {
                assert(t == rest);
                assert(unescape_seq(full) == Ok::<Seq<char>, Seq<char>>(seq![c] + rest));
                assert(seq![c] + rest =~= s);
            },
            Err(_) => {
                assert(false);
            },
        }
    }
}

/// Holds when the text already unescaped (`done`) and the text still to scan
/// (`rest`) together decide the result for the whole input.
pub open spec fn unescape_continues(full: Seq<char>, done: Seq<char>, rest: Seq<char>) -> bool {
    match unescape_seq(rest) {
        Ok(t) => unescape_seq(full) == Ok::<Seq<char>, Seq<char>>(done + t),
        Err(e) => unescape_seq(full) == Err::<Seq<char>, Seq<char>>(e),
    }
}

/// Unescapes all valid XML entities in a string.
/// Returns the first invalid entity on failure.
#[verifier::rlimit(50)]
pub fn unescape(input: &str) -> (r: Result<String, String>)
    ensures
        str_result_view(r) == unescape_seq(input@),
{
    let chars = str_to_chars(input);
    let n = chars.len();
    let mut out: Vec<char> = Vec::new();
    let mut p: usize = 0;
    proof {
        assert(input@.skip(0) =~= input@);
        match unescape_seq(input@) {
            Ok(t) => {
                assert(Seq::<char>::empty() + t =~= t);
            },
            Err(_) => {},
        }
    }
    while p < n
        invariant
            p <= n,
            n == chars@.len(),
            chars@ == input@,
            unescape_continues(input@, out@, input@.skip(p as int)),
        decreases n - p,
    {
        let ghost rest = input@.skip(p as int);
        proof {
            assert(rest[0] == input@[p as int]);
        }
        let c = chars[p];
        if c != '&' {
            let ghost out0 = out@;
            out.push(c);
            p += 1;
            proof {
                assert(rest.drop_first() =~= input@.skip(p as int));
                match unescape_seq(input@.skip(p as int)) {
                    Ok(t) => {
                        assert(unescape_seq(rest) == Ok::<Seq<char>, Seq<char>>(seq![c] + t));
                        assert(out0 + (seq![c] + t) =~= out@ + t);
                    },
                    Err(e) => {
                        assert(unescape_seq(rest) == Err::<Seq<char>, Seq<char>>(e));
                    },
                }
            }
        } else {
            let mut q = p + 1;
            while q < n && chars[q] != ';' && chars[q] != '&'
                invariant
                    p + 1 <= q <= n,
                    n == chars@.len(),
                    chars@ == input@,
                    forall|t: int| p + 1 <= t < q ==> input@[t] != ';' && input@[t] != '&',
                decreases n - q,
            {
                q += 1;
            }
            let ghost r1 = input@.skip(p as int + 1);
            let ghost seg = amp_segment(r1);
            proof {
                assert(rest.drop_first() =~= r1);
                assert(forall|m: int|
                    0 <= m < r1.len() ==> r1[m] == input@[p as int + 1 + m]);
            }
            if q == n || chars[q] == '&' {
                // The fragment has no terminating `;`.
                proof {
                    if q == n {
                        lemma_find_char_none(r1, '&');
                        assert(seg =~= input@.subrange(p as int + 1, q as int));
                    } else {
                        lemma_find_char_at(r1, '&', q - p - 1);
                        assert(seg =~= input@.subrange(p as int + 1, q as int));
                    }
                    lemma_find_char_none(seg, ';');
                    assert(seq!['&'] + seg =~= input@.subrange(p as int, q as int));
                }
                let err = subvec(&chars, p, q);
                return Err(chars_to_string(&err));
            }
            // chars[q] == ';'
            let ghost k: int = q - p - 1;
            proof {
                lemma_find_char(r1, '&');
                match find_char(r1, '&') {
                    Some(j0) => {
                        assert(r1[q - p - 1] == input@[q as int]);
                        assert(j0 > k);
                        assert(seg == r1.take(j0));
                    },
                    None => {
                        assert(seg == r1);
                    },
                }
                assert(seg.len() > k);
                assert(seg[k] == ';');
                assert(forall|m: int| 0 <= m < k ==> seg[m] != ';');
                lemma_find_char_at(seg, ';', k);
                assert(seg.take(k) =~= input@.subrange(p as int + 1, q as int));
            }
            let ent = subvec(&chars, p + 1, q);
            proof {
                assert(ent@ =~= seg.take(k));
            }
            match entity_char_exec(&ent) {
                Some(ch) => {
                    let ghost out0 = out@;
                    out.push(ch);
                    p = q + 1;
                    proof {
                        assert(r1.skip(k + 1) =~= input@.skip(p as int));
                        match unescape_seq(input@.skip(p as int)) {
                            Ok(t) => {
                                assert(unescape_seq(rest) == Ok::<Seq<char>, Seq<char>>(
                                    seq![ch] + t,
                                ));
                                assert(out0 + (seq![ch] + t) =~= out@ + t);
                            },
                            Err(e) => {
                                assert(unescape_seq(rest) == Err::<Seq<char>, Seq<char>>(e));
                            },
                        }
                    }
                },
                None => {
                    proof {
                        assert(unescape_seq(rest) == Err::<Seq<char>, Seq<char>>(
                            seq!['&'] + ent@ + seq![';'],
                        ));
                        assert(seq!['&'] + ent@ + seq![';'] =~= input@.subrange(
                            p as int,
                            q as int + 1,
                        ));
                    }
                    let err = subvec(&chars, p, q + 1);
                    return Err(chars_to_string(&err));
                },
            }
        }
    }
    proof {
        assert(input@.skip(n as int) =~= Seq::<char>::empty());
        assert(out@ + Seq::<char>::empty() =~= out@);
    }
    Ok(chars_to_string(&out))
}

} // verus!
