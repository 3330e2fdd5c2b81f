//! Session keys. A key names one run of a program on one day:
//! `app:<command>:<pid>:<start>:<date>`, where `<start>` is the second at
//! which the run began and `<date>` the day on which it was observed.

use crate::text::{
    chars_of, copy_range, decimal_chars, decimal_text, fields, free_of, is_digit,
    lemma_decimal_text_reads_back,
    lemma_parse_decimal_text, lemma_run_len_is, parse_u64, parse_unsigned, push_chars, split,
    string_of, CharClass,
};
use vstd::prelude::*;

verus! {

/// The tag with which every session key begins.
pub open spec fn tag() -> Seq<char> {
    seq!['a', 'p', 'p']
}

/// The second at which a process began that has run for `elapsed` seconds at
/// second `now`; never before second 0.
pub open spec fn session_start(now: i64, elapsed: u64) -> u64 {
    if now - elapsed > 0 {
        (now - elapsed) as u64
    } else {
        0
    }
}

/// The text of a session key.
pub open spec fn key_text(command: Seq<char>, pid: u32, start: u64, date: Seq<char>) -> Seq<char> {
    tag() + seq![':'] + command + seq![':'] + decimal_text(pid as nat) + seq![':'] + decimal_text(
        start as nat,
    ) + seq![':'] + date
}

/// What a key says: the command, the start of the session and the date.
/// A key has at least five fields between colons; the first is the tag, the
/// third (the pid) may be anything, the fourth is a number, and what follows
/// the fifth is ignored.
pub open spec fn key_fields(key: Seq<char>) -> Option<(Seq<char>, u64, Seq<char>)> {
    let f = fields(key, ':');
    if f.len() >= 5 && f[0] == tag() {
        match parse_unsigned(f[3], u64::MAX as nat) {
            Some(start) => Some((f[1], start as u64, f[4])),
            None => None,
        }
    } else {
        None
    }
}

pub fn start_of_session(now: i64, elapsed: u64) -> (start: u64)
    ensures
        start == session_start(now, elapsed),
{
    if now <= 0 {
        0
    } else {
        let now_u: u64 = now as u64;
        if elapsed >= now_u {
            0
        } else {
            now_u - elapsed
        }
    }
}

/// The key of the session of process `pid`, running `command`, that began
/// at second `start` and was observed on `date`.
pub fn session_key(command: &str, pid: u32, start: u64, date: &str) -> (key: String)
    ensures
        key@ == key_text(command@, pid, start, date@),
{
    let mut key = String::new();
    let mut head: Vec<char> = Vec::new();
    head.push('a');
    head.push('p');
    head.push('p');
    head.push(':');
    assert(head@ =~= tag() + seq![':']);
    push_chars(&mut key, &head);
    push_chars(&mut key, &chars_of(command));
    let mut colon: Vec<char> = Vec::new();
    colon.push(':');
    assert(colon@ =~= seq![':']);
    push_chars(&mut key, &colon);
    push_chars(&mut key, &decimal_chars(pid as u64));
    push_chars(&mut key, &colon);
    push_chars(&mut key, &decimal_chars(start));
    push_chars(&mut key, &colon);
    push_chars(&mut key, &chars_of(date));
    assert(key@ =~= key_text(command@, pid, start, date@));
    key
}

/// Whether two character vectors hold the same text.
pub fn same_chars(a: &Vec<char>, b: &Vec<char>) -> (same: bool)
    ensures
        same == (a@ == b@),
{
    if a.len() != b.len() {
        return false;
    }
    let mut i: usize = 0;
    while i < a.len()
        invariant
            i <= a.len(),
            a.len() == b.len(),
            a@.take(i as int) == b@.take(i as int),
        decreases a.len() - i,
    {
        if a[i] != b[i] {
            assert(a@[i as int] != b@[i as int]);
            return false;
        }
        assert(a@.take(i + 1) =~= a@.take(i as int).push(a@[i as int]));
        assert(b@.take(i + 1) =~= b@.take(i as int).push(b@[i as int]));
        i += 1;
    }
    assert(a@.take(a@.len() as int) =~= a@);
    assert(b@.take(b@.len() as int) =~= b@);
    true
}

/// What a key says, as characters.
pub fn key_parts(key: &Vec<char>) -> (r: Option<(Vec<char>, u64, Vec<char>)>)
    ensures
        match r {
            Some((app, start, date)) => key_fields(key@) == Some((app@, start, date@)),
            None => key_fields(key@) is None,
        },
{
    let parts = split(key, ':');
    if parts.len() < 5 {
        return None;
    }
    let ghost f = fields(key@, ':');
    assert(f[0] == parts@[0]@ && f[1] == parts@[1]@ && f[3] == parts@[3]@ && f[4] == parts@[4]@);
    let mut expected: Vec<char> = Vec::new();
    expected.push('a');
    expected.push('p');
    expected.push('p');
    assert(expected@ =~= tag());
    if !same_chars(&parts[0], &expected) {
        return None;
    }
    match parse_u64(&parts[3]) {
        None => None,
        Some(start) => {
            let date = copy_range(&parts[4], 0, parts[4].len());
            let app = copy_range(&parts[1], 0, parts[1].len());
            assert(date@ =~= f[4]);
            assert(app@ =~= f[1]);
            Some((app, start, date))
        },
    }
}

/// Reads a session key: its command, the start of the session and the date.
pub fn parse_key(key: &str) -> (r: Option<(String, u64, String)>)
    ensures
        match r {
            Some((app, start, date)) => key_fields(key@) == Some((app@, start, date@)),
            None => key_fields(key@) is None,
        },
{
    match key_parts(&chars_of(key)) {
        Some((app, start, date)) => Some((string_of(&app), start, string_of(&date))),
        None => None,
    }
}

// ---------------------------------------------------------------------------
// A key reads back
// ---------------------------------------------------------------------------

proof fn lemma_fields_one(a: Seq<char>, sep: char)
    requires
        free_of(a, sep),
    ensures
        fields(a, sep) == seq![a],
{
    lemma_run_len_is(a, CharClass::Except(sep), a.len() as int);
}

proof fn lemma_fields_first(a: Seq<char>, sep: char, rest: Seq<char>)
    requires
        free_of(a, sep),
    ensures
        fields(a + seq![sep] + rest, sep) == seq![a] + fields(rest, sep),
{
    let s = a + seq![sep] + rest;
    let n = a.len() as int;
    assert forall|j: int| 0 <= j < n implies CharClass::Except(sep).accepts(#[trigger] s[j]) by {
        assert(s[j] == a[j]);
    }
    assert(s[n] == sep);
    lemma_run_len_is(s, CharClass::Except(sep), n);
    assert(s.take(n) =~= a);
    assert(s.skip(n + 1) =~= rest);
}

proof fn lemma_decimal_text_digits(n: nat)
    ensures
        free_of(decimal_text(n), ':'),
{
    lemma_decimal_text_reads_back(n);
    let s = decimal_text(n);
    assert forall|i: int| 0 <= i < s.len() implies #[trigger] s[i] != ':' by {
        assert(is_digit(s[i]));
    }
}

/// A key made of a command and a date without colons says what it was made
/// of.
pub proof fn law_key_reads_back(command: Seq<char>, pid: u32, start: u64, date: Seq<char>)
    requires
        free_of(command, ':'),
        free_of(date, ':'),
    ensures
        key_fields(key_text(command, pid, start, date)) == Some((command, start, date)),
{
    let p = decimal_text(pid as nat);
    let s = decimal_text(start as nat);
    let colon = seq![':'];
    let r4 = date;
    let r3 = s + colon + r4;
    let r2 = p + colon + r3;
    let r1 = command + colon + r2;
    let r0 = tag() + colon + r1;
    assert(r0 =~= key_text(command, pid, start, date));
    lemma_decimal_text_digits(pid as nat);
    lemma_decimal_text_digits(start as nat);
    lemma_fields_one(r4, ':');
    lemma_fields_first(s, ':', r4);
    lemma_fields_first(p, ':', r3);
    lemma_fields_first(command, ':', r2);
    lemma_fields_first(tag(), ':', r1);
    let f = fields(r0, ':');
    assert(f =~= seq![tag(), command, p, s, date]);
    lemma_parse_decimal_text(start as nat, u64::MAX as nat);
}

} // verus!
