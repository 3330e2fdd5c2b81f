//! Text as sequences of characters: conversions, decimal numbers, and the
//! few ways of cutting a line into pieces that the ledger, the session keys
//! and the process listings need.

use vstd::prelude::*;
use vstd::utf8::{
    char_is_scalar, char_u32_cast, decode_utf8, encode_scalar, encode_utf8, has_width_1_encoding,
    is_scalar, last_continuation_byte, leading_byte_width_1, leading_byte_width_2,
    leading_byte_width_3, leading_byte_width_4, second_last_continuation_byte,
    third_last_continuation_byte, valid_utf8,
};

verus! {

/// The characters of `s`, in order.
#[verifier::loop_isolation(false)]
pub fn chars_of(s: &str) -> (v: Vec<char>)
    ensures
        v@ == s@,
{
    let mut v: Vec<char> = Vec::new();
    for c in it: s.chars()
        invariant
            it.seq() == s@,
            v@ == it.seq().take(it.index() as int),
    {
        v.push(c);
    }
    v
}

/// Calls `String::push`. Taken on trust, not proved: the string grows by
/// exactly the one character given, at its end.
#[verifier::external_body]
fn push_char(s: &mut String, c: char)
    ensures
        final(s)@ == old(s)@.push(c),
{
    s.push(c);
}

/// Appends `chars` to `out`.
pub fn push_chars(out: &mut String, chars: &Vec<char>)
    ensures
        final(out)@ == old(out)@ + chars@,
{
    let mut i: usize = 0;
    while i < chars.len()
        invariant
            i <= chars.len(),
            out@ == old(out)@ + chars@.take(i as int),
        decreases chars.len() - i,
    {
        push_char(out, chars[i]);
        assert(chars@.take(i as int).push(chars@[i as int]) =~= chars@.take(i + 1));
        i += 1;
    }
    assert(chars@.take(chars@.len() as int) =~= chars@);
}

/// The string made of `chars`.
pub fn string_of(chars: &Vec<char>) -> (s: String)
    ensures
        s@ == chars@,
{
    let mut s = String::new();
    push_chars(&mut s, chars);
    assert(Seq::<char>::empty() + chars@ =~= chars@);
    s
}

/// A copy of `text[from..to]`.
pub fn copy_range(text: &Vec<char>, from: usize, to: usize) -> (piece: Vec<char>)
    requires
        from <= to <= text.len(),
    ensures
        piece@ == text@.subrange(from as int, to as int),
{
    let mut piece: Vec<char> = Vec::new();
    let mut i: usize = from;
    while i < to
        invariant
            from <= i <= to <= text.len(),
            piece@ == text@.subrange(from as int, i as int),
        decreases to - i,
    {
        piece.push(text[i]);
        assert(text@.subrange(from as int, i as int).push(text@[i as int]) =~= text@.subrange(
            from as int,
            i + 1,
        ));
        i += 1;
    }
    piece
}

// ---------------------------------------------------------------------------
// Decimal numbers
// ---------------------------------------------------------------------------

pub open spec fn is_digit(c: char) -> bool {
    '0' <= c <= '9'
}

pub open spec fn digit_value(c: char) -> nat {
    (c as u32 - '0' as u32) as nat
}

/// The number that a run of decimal digits denotes (0 for the empty run).
pub open spec fn digits_value(s: Seq<char>) -> nat
    decreases s.len(),
{
    if s.len() == 0 {
        0
    } else {
        10 * digits_value(s.drop_last()) + digit_value(s.last())
    }
}

pub open spec fn all_digits(s: Seq<char>) -> bool {
    forall|i: int| 0 <= i < s.len() ==> is_digit(#[trigger] s[i])
}

/// What is left of a number's text once an optional leading `+` is removed.
pub open spec fn unsigned_body(s: Seq<char>) -> Seq<char> {
    if s.len() > 0 && s[0] == '+' {
        s.skip(1)
    } else {
        s
    }
}

/// Reading an unsigned decimal integer no larger than `max`: an optional
/// `+`, then at least one digit and nothing else. Leading zeros are allowed.
pub open spec fn parse_unsigned(s: Seq<char>, max: nat) -> Option<nat> {
    let body = unsigned_body(s);
    if body.len() > 0 && all_digits(body) && digits_value(body) <= max {
        Some(digits_value(body))
    } else {
        None
    }
}

pub open spec fn digit_char(d: nat) -> char {
    if d == 0 {
        '0'
    } else if d == 1 {
        '1'
    } else if d == 2 {
        '2'
    } else if d == 3 {
        '3'
    } else if d == 4 {
        '4'
    } else if d == 5 {
        '5'
    } else if d == 6 {
        '6'
    } else if d == 7 {
        '7'
    } else if d == 8 {
        '8'
    } else {
        '9'
    }
}

/// The decimal text of `n`: no sign, no leading zeros, `0` for zero.
pub open spec fn decimal_text(n: nat) -> Seq<char>
    decreases n,
{
    if n < 10 {
        seq![digit_char(n)]
    } else {
        decimal_text(n / 10).push(digit_char(n % 10))
    }
}

/// A longer run of digits never denotes less than one of its prefixes.
pub proof fn lemma_digits_value_prefix(s: Seq<char>, k: int)
    requires
        0 <= k <= s.len(),
    ensures
        digits_value(s.take(k)) <= digits_value(s),
    decreases s.len() - k,
{
    if k == s.len() {
        assert(s.take(k) =~= s);
    } else {
        lemma_digits_value_prefix(s, k + 1);
        assert(s.take(k + 1).drop_last() =~= s.take(k));
    }
}

/// The text of a number is made of digits and reads back as that number.
pub proof fn lemma_decimal_text_reads_back(n: nat)
    ensures
        decimal_text(n).len() > 0,
        all_digits(decimal_text(n)),
        digits_value(decimal_text(n)) == n,
        decimal_text(n)[0] != '+',
    decreases n,
{
    if n < 10 {
        let s = decimal_text(n);
        assert(s.drop_last() =~= Seq::<char>::empty());
        assert(digits_value(s.drop_last()) == 0);
    } else {
        lemma_decimal_text_reads_back(n / 10);
        let s = decimal_text(n);
        assert(s.drop_last() =~= decimal_text(n / 10));
        assert(s.last() == digit_char(n % 10));
    }
}

/// Writing a number and reading it back gives the number.
pub proof fn lemma_parse_decimal_text(n: nat, max: nat)
    requires
        n <= max,
    ensures
        parse_unsigned(decimal_text(n), max) == Some(n),
{
    lemma_decimal_text_reads_back(n);
}

fn digit_of(c: char) -> (d: Option<u64>)
    ensures
        d is Some <==> is_digit(c),
        d matches Some(v) ==> v == digit_value(c),
{
    if '0' <= c && c <= '9' {
        Some((c as u32 - '0' as u32) as u64)
    } else {
        None
    }
}

/// Reads `text` as an unsigned decimal integer that fits 64 bits.
pub fn parse_u64(text: &Vec<char>) -> (r: Option<u64>)
    ensures
        r is Some <==> parse_unsigned(text@, u64::MAX as nat) is Some,
        r matches Some(v) ==> parse_unsigned(text@, u64::MAX as nat) == Some(v as nat),
{
    let start: usize = if text.len() > 0 && text[0] == '+' {
        1
    } else {
        0
    };
    let ghost body = unsigned_body(text@);
    assert(body =~= text@.skip(start as int));
    if start == text.len() {
        return None;
    }
    let mut acc: u64 = 0;
    let mut i: usize = start;
    while i < text.len()
        invariant
            start <= i <= text.len(),
            body == text@.skip(start as int),
            body == unsigned_body(text@),
            all_digits(body.take(i - start)),
            acc == digits_value(body.take(i - start)),
        decreases text.len() - i,
    {
        let ghost k = i - start;
        assert(body.take(k + 1).drop_last() =~= body.take(k));
        assert(body.take(k + 1).last() == text@[i as int]);
        match digit_of(text[i]) {
            None => {
                assert(!is_digit(body[k]));
                return None;
            },
            Some(d) => {
                if acc > (u64::MAX - d) / 10 {
                    proof {
                        lemma_digits_value_prefix(body, k + 1);
                    }
                    return None;
                }
                acc = acc * 10 + d;
                assert forall|j: int| 0 <= j < k + 1 implies is_digit(
                    #[trigger] body.take(k + 1)[j],
                ) by {
                    if j < k {
                        assert(body.take(k)[j] == body[j]);
                    }
                }
            },
        }
        i += 1;
    }
    assert(body.take(i - start) =~= body);
    Some(acc)
}

/// Reads `text` as an unsigned decimal integer that fits 32 bits.
pub fn parse_u32(text: &Vec<char>) -> (r: Option<u32>)
    ensures
        r is Some <==> parse_unsigned(text@, u32::MAX as nat) is Some,
        r matches Some(v) ==> parse_unsigned(text@, u32::MAX as nat) == Some(v as nat),
{
    match parse_u64(text) {
        Some(v) => if v <= 0xffff_ffff {
            Some(v as u32)
        } else {
            None
        },
        None => None,
    }
}

fn char_of_digit(d: u64) -> (c: char)
    requires
        d < 10,
    ensures
        c == digit_char(d as nat),
{
    if d == 0 {
        '0'
    } else if d == 1 {
        '1'
    } else if d == 2 {
        '2'
    } else if d == 3 {
        '3'
    } else if d == 4 {
        '4'
    } else if d == 5 {
        '5'
    } else if d == 6 {
        '6'
    } else if d == 7 {
        '7'
    } else if d == 8 {
        '8'
    } else {
        '9'
    }
}

/// The decimal text of `n`.
pub fn decimal_chars(n: u64) -> (v: Vec<char>)
    ensures
        v@ == decimal_text(n as nat),
    decreases n,
{
    if n < 10 {
        let mut v: Vec<char> = Vec::new();
        v.push(char_of_digit(n));
        assert(v@ =~= seq![digit_char(n as nat)]);
        v
    } else {
        let mut v = decimal_chars(n / 10);
        v.push(char_of_digit(n % 10));
        v
    }
}

// ---------------------------------------------------------------------------
// Runs of characters
// ---------------------------------------------------------------------------

/// White space, as Unicode lists it.
pub open spec fn is_space(c: char) -> bool {
    let u = c as u32;
    ||| 0x09 <= u <= 0x0d
    ||| u == 0x20
    ||| u == 0x85
    ||| u == 0xa0
    ||| u == 0x1680
    ||| 0x2000 <= u <= 0x200a
    ||| u == 0x2028
    ||| u == 0x2029
    ||| u == 0x202f
    ||| u == 0x205f
    ||| u == 0x3000
}

/// A set of characters that a scan runs over.
#[derive(Clone, Copy)]
pub enum CharClass {
    /// Every character but the one given.
    Except(char),
    /// White space.
    Space,
    /// Everything that is not white space.
    Solid,
}

impl CharClass {
    pub open spec fn accepts(self, c: char) -> bool {
        match self {
            CharClass::Except(x) => c != x,
            CharClass::Space => is_space(c),
            CharClass::Solid => !is_space(c),
        }
    }

    pub fn admits(&self, c: char) -> (b: bool)
        ensures
            b == self.accepts(c),
    {
        let u: u32 = c as u32;
        let space = (0x09 <= u && u <= 0x0d) || u == 0x20 || u == 0x85 || u == 0xa0 || u == 0x1680
            || (0x2000 <= u && u <= 0x200a) || u == 0x2028 || u == 0x2029 || u == 0x202f || u
            == 0x205f || u == 0x3000;
        match self {
            CharClass::Except(x) => c != *x,
            CharClass::Space => space,
            CharClass::Solid => !space,
        }
    }
}

/// How many characters at the start of `s` belong to `class`, up to the
/// first that does not.
pub open spec fn run_len(s: Seq<char>, class: CharClass) -> nat
    decreases s.len(),
{
    if s.len() > 0 && class.accepts(s[0]) {
        1 + run_len(s.drop_first(), class)
    } else {
        0
    }
}

/// How many characters at the end of `s` belong to `class`.
pub open spec fn tail_len(s: Seq<char>, class: CharClass) -> nat
    decreases s.len(),
{
    if s.len() > 0 && class.accepts(s.last()) {
        1 + tail_len(s.drop_last(), class)
    } else {
        0
    }
}

pub proof fn lemma_run_len_bound(s: Seq<char>, class: CharClass)
    ensures
        run_len(s, class) <= s.len(),
    decreases s.len(),
{
    if s.len() > 0 && class.accepts(s[0]) {
        lemma_run_len_bound(s.drop_first(), class);
    }
}

pub proof fn lemma_tail_len_bound(s: Seq<char>, class: CharClass)
    ensures
        tail_len(s, class) <= s.len(),
    decreases s.len(),
{
    if s.len() > 0 && class.accepts(s.last()) {
        lemma_tail_len_bound(s.drop_last(), class);
    }
}

/// A run is known by its members and by what stops it.
pub proof fn lemma_run_len_is(s: Seq<char>, class: CharClass, n: int)
    requires
        0 <= n <= s.len(),
        forall|j: int| 0 <= j < n ==> class.accepts(#[trigger] s[j]),
        n < s.len() ==> !class.accepts(s[n]),
    ensures
        run_len(s, class) == n,
    decreases n,
{
    if n > 0 {
        let t = s.drop_first();
        assert forall|j: int| 0 <= j < n - 1 implies class.accepts(#[trigger] t[j]) by {
            assert(t[j] == s[j + 1]);
        }
        lemma_run_len_is(t, class, n - 1);
    }
}

pub proof fn lemma_tail_len_is(s: Seq<char>, class: CharClass, n: int)
    requires
        0 <= n <= s.len(),
        forall|j: int| s.len() - n <= j < s.len() ==> class.accepts(#[trigger] s[j]),
        n < s.len() ==> !class.accepts(s[s.len() - n - 1]),
    ensures
        tail_len(s, class) == n,
    decreases n,
{
    if n > 0 {
        let t = s.drop_last();
        assert forall|j: int| t.len() - (n - 1) <= j < t.len() implies class.accepts(
            #[trigger] t[j],
        ) by {
            assert(t[j] == s[j]);
        }
        lemma_tail_len_is(t, class, n - 1);
    }
}

/// The members of a run, and what stops it.
pub proof fn lemma_run_len_members(s: Seq<char>, class: CharClass)
    ensures
        run_len(s, class) <= s.len(),
        forall|j: int| 0 <= j < run_len(s, class) ==> class.accepts(#[trigger] s[j]),
        run_len(s, class) < s.len() ==> !class.accepts(s[run_len(s, class) as int]),
    decreases s.len(),
{
    if s.len() > 0 && class.accepts(s[0]) {
        let t = s.drop_first();
        lemma_run_len_members(t, class);
        assert forall|j: int| 0 <= j < run_len(s, class) implies class.accepts(
            #[trigger] s[j],
        ) by {
            if j > 0 {
                assert(s[j] == t[j - 1]);
            }
        }
        if run_len(s, class) < s.len() {
            assert(s[run_len(s, class) as int] == t[run_len(t, class) as int]);
        }
    }
}

/// Where, from `from` on, the run of `class` ends.
pub fn scan(text: &Vec<char>, from: usize, class: CharClass) -> (to: usize)
    requires
        from <= text.len(),
    ensures
        from <= to <= text.len(),
        to - from == run_len(text@.skip(from as int), class),
{
    let mut i: usize = from;
    while i < text.len() && class.admits(text[i])
        invariant
            from <= i <= text.len(),
            forall|j: int| from <= j < i ==> class.accepts(#[trigger] text@[j]),
        decreases text.len() - i,
    {
        i += 1;
    }
    proof {
        let rest = text@.skip(from as int);
        assert forall|j: int| 0 <= j < i - from implies class.accepts(#[trigger] rest[j]) by {
            assert(rest[j] == text@[from + j]);
        }
        lemma_run_len_is(rest, class, i - from);
    }
    i
}

/// Where, going back from `to`, the run of `class` that ends there begins.
pub fn scan_back(text: &Vec<char>, to: usize, class: CharClass) -> (from: usize)
    requires
        to <= text.len(),
    ensures
        from <= to,
        to - from == tail_len(text@.take(to as int), class),
{
    let mut i: usize = to;
    while i > 0 && class.admits(text[i - 1])
        invariant
            i <= to <= text.len(),
            forall|j: int| i <= j < to ==> class.accepts(#[trigger] text@[j]),
        decreases i,
    {
        i -= 1;
    }
    proof {
        let head = text@.take(to as int);
        assert forall|j: int| head.len() - (to - i) <= j < head.len() implies class.accepts(
            #[trigger] head[j],
        ) by {
            assert(head[j] == text@[j]);
        }
        lemma_tail_len_is(head, class, to - i);
    }
    i
}

// ---------------------------------------------------------------------------
// Cutting text into pieces
// ---------------------------------------------------------------------------

/// The contents of each of a list of character vectors.
pub open spec fn views(parts: Seq<Vec<char>>) -> Seq<Seq<char>> {
    parts.map_values(|part: Vec<char>| part@)
}

/// `c` does not occur in `s`.
pub open spec fn free_of(s: Seq<char>, c: char) -> bool {
    forall|i: int| 0 <= i < s.len() ==> #[trigger] s[i] != c
}

/// The position of the first `sep` in `s`; the length of `s` if there is none.
pub open spec fn find(s: Seq<char>, sep: char) -> nat {
    run_len(s, CharClass::Except(sep))
}

/// The pieces of `s` between occurrences of `sep`. There is always at least
/// one, and pieces may be empty.
pub open spec fn fields(s: Seq<char>, sep: char) -> Seq<Seq<char>>
    decreases s.len(),
{
    let i = find(s, sep);
    if i >= s.len() {
        seq![s]
    } else {
        seq![s.take(i as int)] + fields(s.skip(i as int + 1), sep)
    }
}

/// A line without the carriage return that may end it.
pub open spec fn strip_cr(line: Seq<char>) -> Seq<char> {
    if line.len() > 0 && line.last() == '\r' {
        line.drop_last()
    } else {
        line
    }
}

/// The lines of `s`. A line ends at a line feed, which is not part of it,
/// nor is a carriage return just before that line feed. What follows the
/// last line feed is a line too, unless it is empty.
pub open spec fn lines(s: Seq<char>) -> Seq<Seq<char>>
    decreases s.len(),
{
    if s.len() == 0 {
        seq![]
    } else {
        let i = find(s, '\n');
        if i >= s.len() {
            seq![s]
        } else {
            seq![strip_cr(s.take(i as int))] + lines(s.skip(i as int + 1))
        }
    }
}

/// The words of `s`: its longest runs without white space.
pub open spec fn words(s: Seq<char>) -> Seq<Seq<char>>
    decreases s.len(),
{
    let lead = run_len(s, CharClass::Space);
    let t = s.skip(lead as int);
    let n = run_len(t, CharClass::Solid);
    if n == 0 {
        seq![]
    } else {
        proof {
            lemma_run_len_bound(s, CharClass::Space);
            lemma_run_len_bound(t, CharClass::Solid);
        }
        seq![t.take(n as int)] + words(t.skip(n as int))
    }
}

/// `s` without the white space at its start and at its end.
pub open spec fn trimmed(s: Seq<char>) -> Seq<char> {
    let t = s.skip(run_len(s, CharClass::Space) as int);
    t.take(t.len() - tail_len(t, CharClass::Space))
}

/// The pieces put together again, with `sep` between each two.
pub open spec fn joined(parts: Seq<Seq<char>>, sep: char) -> Seq<char>
    decreases parts.len(),
{
    if parts.len() == 0 {
        seq![]
    } else if parts.len() == 1 {
        parts[0]
    } else {
        joined(parts.drop_last(), sep).push(sep) + parts.last()
    }
}

proof fn lemma_views_push(parts: Seq<Vec<char>>, piece: Vec<char>)
    ensures
        views(parts.push(piece)) == views(parts).push(piece@),
{
    assert(views(parts.push(piece)) =~= views(parts).push(piece@));
}

/// Cuts `text` at every `sep`.
pub fn split(text: &Vec<char>, sep: char) -> (parts: Vec<Vec<char>>)
    ensures
        views(parts@) == fields(text@, sep),
{
    let mut parts: Vec<Vec<char>> = Vec::new();
    let mut start: usize = 0;
    assert(views(parts@) + fields(text@.skip(0), sep) =~= fields(text@, sep)) by {
        assert(text@.skip(0) =~= text@);
    }
    loop
        invariant_except_break
            start <= text.len(),
            views(parts@) + fields(text@.skip(start as int), sep) == fields(text@, sep),
        ensures
            views(parts@) == fields(text@, sep),
        decreases text.len() - start,
    {
        let end = scan(text, start, CharClass::Except(sep));
        let piece = copy_range(text, start, end);
        let ghost rest = text@.skip(start as int);
        let ghost before = views(parts@);
        proof {
            lemma_views_push(parts@, piece);
        }
        parts.push(piece);
        if end == text.len() {
            proof {
                assert(piece@ =~= rest);
                assert(before + seq![rest] =~= before.push(rest));
            }
            break ;
        }
        proof {
            let n = end - start;
            assert(rest.take(n) =~= piece@);
            assert(rest.skip(n + 1) =~= text@.skip(end + 1));
            assert(before + (seq![piece@] + fields(text@.skip(end + 1), sep)) =~= before.push(
                piece@,
            ) + fields(text@.skip(end + 1), sep));
        }
        start = end + 1;
    }
    parts
}

/// Cuts `text` into its lines.
pub fn split_lines(text: &Vec<char>) -> (parts: Vec<Vec<char>>)
    ensures
        views(parts@) == lines(text@),
{
    let mut parts: Vec<Vec<char>> = Vec::new();
    let mut start: usize = 0;
    assert(views(parts@) + lines(text@.skip(0)) =~= lines(text@)) by {
        assert(text@.skip(0) =~= text@);
    }
    loop
        invariant_except_break
            start <= text.len(),
            views(parts@) + lines(text@.skip(start as int)) == lines(text@),
        ensures
            views(parts@) == lines(text@),
        decreases text.len() - start,
    {
        let ghost rest = text@.skip(start as int);
        let ghost before = views(parts@);
        if start == text.len() {
            assert(before + lines(rest) =~= before);
            break ;
        }
        let end = scan(text, start, CharClass::Except('\n'));
        if end == text.len() {
            let piece = copy_range(text, start, end);
            proof {
                lemma_views_push(parts@, piece);
                assert(piece@ =~= rest);
                assert(before + seq![rest] =~= before.push(rest));
            }
            parts.push(piece);
            break ;
        }
        let stop: usize = if end > start && text[end - 1] == '\r' {
            (end - 1) as usize
        } else {
            end
        };
        let piece = copy_range(text, start, stop);
        proof {
            let n = end - start;
            lemma_views_push(parts@, piece);
            assert(rest.take(n) =~= text@.subrange(start as int, end as int));
            assert(strip_cr(rest.take(n)) =~= piece@);
            assert(rest.skip(n + 1) =~= text@.skip(end + 1));
            assert(before + (seq![piece@] + lines(text@.skip(end + 1))) =~= before.push(piece@)
                + lines(text@.skip(end + 1)));
        }
        parts.push(piece);
        start = end + 1;
    }
    parts
}

/// Cuts `text` into its words.
pub fn split_words(text: &Vec<char>) -> (parts: Vec<Vec<char>>)
    ensures
        views(parts@) == words(text@),
{
    let mut parts: Vec<Vec<char>> = Vec::new();
    let mut pos: usize = 0;
    assert(views(parts@) + words(text@.skip(0)) =~= words(text@)) by {
        assert(text@.skip(0) =~= text@);
    }
    loop
        invariant_except_break
            pos <= text.len(),
            views(parts@) + words(text@.skip(pos as int)) == words(text@),
        ensures
            views(parts@) == words(text@),
        decreases text.len() - pos,
    {
        let ghost rest = text@.skip(pos as int);
        let ghost before = views(parts@);
        let begin = scan(text, pos, CharClass::Space);
        let end = scan(text, begin, CharClass::Solid);
        proof {
            assert(rest.skip(begin - pos) =~= text@.skip(begin as int));
        }
        if end == begin {
            assert(before + words(rest) =~= before);
            break ;
        }
        let piece = copy_range(text, begin, end);
        proof {
            lemma_views_push(parts@, piece);
            let t = text@.skip(begin as int);
            assert(t.take(end - begin) =~= piece@);
            assert(t.skip(end - begin) =~= text@.skip(end as int));
            assert(before + (seq![piece@] + words(text@.skip(end as int))) =~= before.push(piece@)
                + words(text@.skip(end as int)));
        }
        parts.push(piece);
        pos = end;
    }
    parts
}

/// `text` without the white space around it.
pub fn trim(text: &Vec<char>) -> (inner: Vec<char>)
    ensures
        inner@ == trimmed(text@),
{
    let begin = scan(text, 0, CharClass::Space);
    let end = scan_back(text, text.len(), CharClass::Space);
    proof {
        assert(text@.skip(0) =~= text@);
        assert(text@.take(text@.len() as int) =~= text@);
        lemma_trim_ends(text@);
    }
    if end <= begin {
        let inner: Vec<char> = Vec::new();
        assert(inner@ =~= trimmed(text@));
        inner
    } else {
        let inner = copy_range(text, begin, end);
        assert(inner@ =~= trimmed(text@));
        inner
    }
}

/// The white space at the end of `s` is that of `s` without its leading
/// white space, unless `s` is white space throughout.
pub proof fn lemma_trim_ends(s: Seq<char>)
    ensures
        ({
            let lead = run_len(s, CharClass::Space);
            let t = s.skip(lead as int);
            &&& lead <= s.len()
            &&& tail_len(s, CharClass::Space) <= s.len()
            &&& tail_len(t, CharClass::Space) <= t.len()
            &&& (lead < s.len() ==> tail_len(t, CharClass::Space) == tail_len(
                s,
                CharClass::Space,
            ) && lead + tail_len(s, CharClass::Space) <= s.len())
            &&& (lead == s.len() ==> tail_len(s, CharClass::Space) == s.len())
        }),
{
    let class = CharClass::Space;
    let lead = run_len(s, class);
    let t = s.skip(lead as int);
    lemma_run_len_members(s, class);
    lemma_tail_len_bound(s, class);
    lemma_tail_len_bound(t, class);
    if lead == s.len() {
        lemma_tail_len_is(s, class, s.len() as int);
    } else {
        lemma_tail_len_members(t, class);
        let n = tail_len(t, class);
        assert(n < t.len()) by {
            if n == t.len() {
                assert(class.accepts(t[0]));
            }
        }
        assert forall|j: int| s.len() - n <= j < s.len() implies class.accepts(#[trigger] s[j]) by {
            assert(s[j] == t[j - lead]);
        }
        assert(s[s.len() - n - 1] == t[t.len() - n - 1]);
        lemma_tail_len_is(s, class, n as int);
    }
}

pub proof fn lemma_tail_len_members(s: Seq<char>, class: CharClass)
    ensures
        tail_len(s, class) <= s.len(),
        forall|j: int| s.len() - tail_len(s, class) <= j < s.len() ==> class.accepts(#[trigger] s[j]),
        tail_len(s, class) < s.len() ==> !class.accepts(s[s.len() - tail_len(s, class) - 1]),
    decreases s.len(),
{
    if s.len() > 0 && class.accepts(s.last()) {
        let t = s.drop_last();
        lemma_tail_len_members(t, class);
        assert forall|j: int| s.len() - tail_len(s, class) <= j < s.len() implies class.accepts(
            #[trigger] s[j],
        ) by {
            if j < s.len() - 1 {
                assert(s[j] == t[j]);
            }
        }
        if tail_len(s, class) < s.len() {
            assert(s[s.len() - tail_len(s, class) - 1] == t[t.len() - tail_len(t, class) - 1]);
        }
    }
}

/// Puts the pieces from `from` on together, with `sep` between each two.
pub fn join(parts: &Vec<Vec<char>>, from: usize, sep: char) -> (whole: Vec<char>)
    requires
        from <= parts.len(),
    ensures
        whole@ == joined(views(parts@).skip(from as int), sep),
{
    let mut whole: Vec<char> = Vec::new();
    let mut i: usize = from;
    let ghost all = views(parts@).skip(from as int);
    while i < parts.len()
        invariant
            from <= i <= parts.len(),
            all == views(parts@).skip(from as int),
            whole@ == joined(all.take(i - from), sep),
        decreases parts.len() - i,
    {
        let ghost k = i - from;
        assert(all.take(k + 1).drop_last() =~= all.take(k));
        assert(all.take(k + 1).last() == parts@[i as int]@);
        if i > from {
            whole.push(sep);
        }
        let part = &parts[i];
        let mut j: usize = 0;
        let ghost base = whole@;
        while j < part.len()
            invariant
                j <= part.len(),
                whole@ == base + part@.take(j as int),
            decreases part.len() - j,
        {
            whole.push(part[j]);
            assert(part@.take(j as int).push(part@[j as int]) =~= part@.take(j + 1));
            j += 1;
        }
        assert(part@.take(part@.len() as int) =~= part@);
        assert(whole@ =~= joined(all.take(k + 1), sep));
        i += 1;
    }
    assert(all.take(i - from) =~= all);
    whole
}

/// The first separator is where the text before it is free of separators.
pub proof fn lemma_find_is(s: Seq<char>, sep: char, n: int)
    requires
        0 <= n <= s.len(),
        free_of(s.take(n), sep),
        n < s.len() ==> s[n] == sep,
    ensures
        find(s, sep) == n,
{
    assert forall|j: int| 0 <= j < n implies CharClass::Except(sep).accepts(#[trigger] s[j]) by {
        assert(s.take(n)[j] == s[j]);
    }
    lemma_run_len_is(s, CharClass::Except(sep), n);
}

/// The lines of a text that ends with a line feed, followed by more text,
/// are the lines of the one and then those of the other.
pub proof fn lemma_lines_concat(a: Seq<char>, b: Seq<char>)
    requires
        a.len() == 0 || a.last() == '\n',
    ensures
        lines(a + b) == lines(a) + lines(b),
    decreases a.len(),
{
    if a.len() == 0 {
        assert(a + b =~= b);
        assert(lines(a) + lines(b) =~= lines(b));
    } else {
        let s = a + b;
        let class = CharClass::Except('\n');
        lemma_run_len_members(a, class);
        let i = find(a, '\n') as int;
        assert(i < a.len()) by {
            if i == a.len() {
                assert(class.accepts(a[a.len() - 1]));
            }
        }
        assert forall|j: int| 0 <= j < i implies class.accepts(#[trigger] s[j]) by {
            assert(s[j] == a[j]);
        }
        assert(s[i] == a[i]);
        lemma_run_len_is(s, class, i);
        let rest = a.skip(i + 1);
        assert(s.take(i) =~= a.take(i));
        assert(s.skip(i + 1) =~= rest + b);
        if rest.len() > 0 {
            assert(rest.last() == a.last());
        }
        lemma_lines_concat(rest, b);
        assert(seq![strip_cr(a.take(i))] + (lines(rest) + lines(b)) =~= (seq![
            strip_cr(a.take(i)),
        ] + lines(rest)) + lines(b));
    }
}

/// A text without line feeds, ended by one, is one line.
pub proof fn lemma_lines_one(x: Seq<char>)
    requires
        free_of(x, '\n'),
    ensures
        lines(x + seq!['\n']) == seq![strip_cr(x)],
{
    let s = x + seq!['\n'];
    let n = x.len() as int;
    assert(s.take(n) =~= x);
    assert(s[n] == '\n');
    lemma_find_is(s, '\n', n);
    assert(s.skip(n + 1) =~= Seq::<char>::empty());
    assert(seq![strip_cr(x)] + lines(Seq::<char>::empty()) =~= seq![strip_cr(x)]);
}

// ---------------------------------------------------------------------------
// Bytes
// ---------------------------------------------------------------------------

/// Calls `core::str::from_utf8`. Taken on trust, not proved: there is a text
/// exactly when the bytes are UTF-8, and it is the text that they encode.
#[verifier::external_body]
fn utf8_text<'a>(bytes: &'a Vec<u8>) -> (text: Option<&'a str>)
    ensures
        text is Some <==> valid_utf8(bytes@),
        text matches Some(t) ==> t@ == decode_utf8(bytes@),
{
    match std::str::from_utf8(bytes) {
        Ok(t) => Some(t),
        Err(_) => None,
    }
}

/// The characters that `bytes` encode, if they are UTF-8.
pub fn chars_of_bytes(bytes: &Vec<u8>) -> (text: Option<Vec<char>>)
    ensures
        text is Some <==> valid_utf8(bytes@),
        text matches Some(t) ==> t@ == decode_utf8(bytes@),
{
    match utf8_text(bytes) {
        Some(t) => Some(chars_of(t)),
        None => None,
    }
}

/// The contents of each of a list of byte vectors.
pub open spec fn byte_views(parts: Seq<Vec<u8>>) -> Seq<Seq<u8>> {
    parts.map_values(|part: Vec<u8>| part@)
}

/// The position of the first byte `b` in `s`; the length of `s` if there is
/// none.
pub open spec fn find_byte(s: Seq<u8>, b: u8) -> nat
    decreases s.len(),
{
    if s.len() > 0 && s[0] != b {
        1 + find_byte(s.drop_first(), b)
    } else {
        0
    }
}

/// A line of bytes without the carriage return that may end it.
pub open spec fn strip_cr_byte(line: Seq<u8>) -> Seq<u8> {
    if line.len() > 0 && line.last() == 0x0d {
        line.drop_last()
    } else {
        line
    }
}

/// The lines of `s`, as bytes. A line ends at a line feed, which is not
/// part of it, nor is a carriage return just before that line feed. What
/// follows the last line feed is a line too, unless it is empty.
pub open spec fn byte_lines(s: Seq<u8>) -> Seq<Seq<u8>>
    decreases s.len(),
{
    if s.len() == 0 {
        seq![]
    } else {
        let i = find_byte(s, 0x0a);
        if i >= s.len() {
            seq![s]
        } else {
            seq![strip_cr_byte(s.take(i as int))] + byte_lines(s.skip(i as int + 1))
        }
    }
}

pub proof fn lemma_find_byte_is(s: Seq<u8>, b: u8, n: int)
    requires
        0 <= n <= s.len(),
        forall|j: int| 0 <= j < n ==> #[trigger] s[j] != b,
        n < s.len() ==> s[n] == b,
    ensures
        find_byte(s, b) == n,
    decreases n,
{
    if n > 0 {
        let t = s.drop_first();
        assert forall|j: int| 0 <= j < n - 1 implies #[trigger] t[j] != b by {
            assert(t[j] == s[j + 1]);
        }
        lemma_find_byte_is(t, b, n - 1);
    }
}

/// Where, from `from` on, the first byte `b` stands.
pub fn scan_byte(content: &[u8], from: usize, b: u8) -> (to: usize)
    requires
        from <= content.len(),
    ensures
        from <= to <= content.len(),
        to - from == find_byte(content@.skip(from as int), b),
{
    let mut i: usize = from;
    while i < content.len() && content[i] != b
        invariant
            from <= i <= content.len(),
            forall|j: int| from <= j < i ==> #[trigger] content@[j] != b,
        decreases content.len() - i,
    {
        i += 1;
    }
    proof {
        let rest = content@.skip(from as int);
        assert forall|j: int| 0 <= j < i - from implies #[trigger] rest[j] != b by {
            assert(rest[j] == content@[from + j]);
        }
        lemma_find_byte_is(rest, b, i - from);
    }
    i
}

/// A copy of `content[from..to]`.
pub fn copy_bytes(content: &[u8], from: usize, to: usize) -> (piece: Vec<u8>)
    requires
        from <= to <= content.len(),
    ensures
        piece@ == content@.subrange(from as int, to as int),
{
    let mut piece: Vec<u8> = Vec::new();
    let mut i: usize = from;
    while i < to
        invariant
            from <= i <= to <= content.len(),
            piece@ == content@.subrange(from as int, i as int),
        decreases to - i,
    {
        piece.push(content[i]);
        assert(content@.subrange(from as int, i as int).push(content@[i as int])
            =~= content@.subrange(from as int, i + 1));
        i += 1;
    }
    piece
}

/// Cuts bytes into lines.
pub fn split_byte_lines(content: &[u8]) -> (parts: Vec<Vec<u8>>)
    ensures
        byte_views(parts@) == byte_lines(content@),
{
    let mut parts: Vec<Vec<u8>> = Vec::new();
    let mut start: usize = 0;
    assert(byte_views(parts@) + byte_lines(content@.skip(0)) =~= byte_lines(content@)) by {
        assert(content@.skip(0) =~= content@);
    }
    loop
        invariant_except_break
            start <= content.len(),
            byte_views(parts@) + byte_lines(content@.skip(start as int)) == byte_lines(content@),
        ensures
            byte_views(parts@) == byte_lines(content@),
        decreases content.len() - start,
    {
        let ghost rest = content@.skip(start as int);
        let ghost before = byte_views(parts@);
        if start == content.len() {
            assert(before + byte_lines(rest) =~= before);
            break ;
        }
        let end = scan_byte(content, start, 0x0a);
        if end == content.len() {
            let piece = copy_bytes(content, start, end);
            proof {
                assert(byte_views(parts@.push(piece)) =~= before.push(piece@));
                assert(piece@ =~= rest);
                assert(before + seq![rest] =~= before.push(rest));
            }
            parts.push(piece);
            break ;
        }
        let stop: usize = if end > start && content[end - 1] == 0x0d {
            (end - 1) as usize
        } else {
            end
        };
        let piece = copy_bytes(content, start, stop);
        proof {
            let n = end - start;
            assert(byte_views(parts@.push(piece)) =~= before.push(piece@));
            assert(rest.take(n) =~= content@.subrange(start as int, end as int));
            assert(strip_cr_byte(rest.take(n)) =~= piece@);
            assert(rest.skip(n + 1) =~= content@.skip(end + 1));
            assert(before + (seq![piece@] + byte_lines(content@.skip(end + 1))) =~= before.push(
                piece@,
            ) + byte_lines(content@.skip(end + 1)));
        }
        parts.push(piece);
        start = end + 1;
    }
    parts
}

// ---------------------------------------------------------------------------
// The bytes of a text
// ---------------------------------------------------------------------------

proof fn lemma_low_byte(s: u32, b: u8)
    by (bit_vector)
    requires
        s <= 0x7f,
        b < 0x80,
    ensures
        (leading_byte_width_1(s) == b) <==> (s == b as u32),
{
}

proof fn lemma_high_bytes(s: u32)
    by (bit_vector)
    ensures
        leading_byte_width_2(s) >= 0x80,
        leading_byte_width_3(s) >= 0x80,
        leading_byte_width_4(s) >= 0x80,
        last_continuation_byte(s) >= 0x80,
        second_last_continuation_byte(s) >= 0x80,
        third_last_continuation_byte(s) >= 0x80,
{
}

/// A character below 128 is encoded as the one byte with its number, and
/// that byte occurs in the encoding of no other character.
pub proof fn lemma_encode_scalar_ascii(c: char, x: char, b: u8)
    requires
        b < 0x80,
        b as u32 == x as u32,
    ensures
        encode_scalar(c as u32).len() >= 1,
        c == x ==> encode_scalar(c as u32) == seq![b],
        c != x ==> forall|j: int|
            0 <= j < encode_scalar(c as u32).len() ==> #[trigger] encode_scalar(c as u32)[j] != b,
{
    let s = c as u32;
    char_is_scalar(c);
    lemma_high_bytes(s);
    if has_width_1_encoding(s) {
        lemma_low_byte(s, b);
        if c != x {
            if s == x as u32 {
                char_u32_cast(c, s);
                char_u32_cast(x, s);
            }
        }
    }
}

proof fn lemma_encode_push(a: Seq<char>, c: char)
    ensures
        encode_utf8(a.push(c)) == encode_utf8(a) + encode_scalar(c as u32),
    decreases a.len(),
{
    let whole = a.push(c);
    if a.len() == 0 {
        assert(whole.drop_first() =~= a);
        assert(encode_utf8(a) =~= Seq::<u8>::empty());
        assert(encode_utf8(whole) =~= encode_scalar(c as u32) + encode_utf8(a));
        assert(encode_utf8(whole) =~= encode_utf8(a) + encode_scalar(c as u32));
    } else {
        lemma_encode_push(a.drop_first(), c);
        assert(whole.drop_first() =~= a.drop_first().push(c));
        assert(encode_scalar(a[0] as u32) + (encode_utf8(a.drop_first()) + encode_scalar(c as u32))
            =~= (encode_scalar(a[0] as u32) + encode_utf8(a.drop_first())) + encode_scalar(
            c as u32,
        ));
    }
}

proof fn lemma_find_byte_after(p: Seq<u8>, q: Seq<u8>, b: u8)
    requires
        forall|j: int| 0 <= j < p.len() ==> #[trigger] p[j] != b,
    ensures
        find_byte(p + q, b) == p.len() + find_byte(q, b),
    decreases p.len(),
{
    if p.len() == 0 {
        assert(p + q =~= q);
    } else {
        let t = p.drop_first();
        assert forall|j: int| 0 <= j < t.len() implies #[trigger] t[j] != b by {
            assert(t[j] == p[j + 1]);
        }
        lemma_find_byte_after(t, q, b);
        assert((p + q)[0] == p[0]);
        assert((p + q).drop_first() =~= t + q);
    }
}

pub proof fn lemma_find_byte_bound(s: Seq<u8>, b: u8)
    ensures
        find_byte(s, b) <= s.len(),
    decreases s.len(),
{
    if s.len() > 0 && s[0] != b {
        lemma_find_byte_bound(s.drop_first(), b);
    }
}

/// Where a character below 128 first stands in a text, its byte first
/// stands in the bytes of the text, and the bytes before it and after it
/// are those of the text before it and after it.
pub proof fn lemma_find_in_bytes(c: Seq<char>, x: char, b: u8)
    requires
        b < 0x80,
        b as u32 == x as u32,
    ensures
        ({
            let k = find(c, x) as int;
            let e = encode_utf8(c);
            let kb = find_byte(e, b) as int;
            &&& k <= c.len()
            &&& kb <= e.len()
            &&& (k < c.len() <==> kb < e.len())
            &&& e.take(kb) == encode_utf8(c.take(k))
            &&& (k < c.len() ==> e.skip(kb + 1) == encode_utf8(c.skip(k + 1)))
        }),
    decreases c.len(),
{
    let k = find(c, x) as int;
    let e = encode_utf8(c);
    let kb = find_byte(e, b) as int;
    lemma_run_len_bound(c, CharClass::Except(x));
    lemma_find_byte_bound(e, b);
    if c.len() == 0 {
        assert(c.take(0) =~= c);
        assert(e.take(0) =~= e);
    } else {
        let rest = c.drop_first();
        let e0 = encode_scalar(c[0] as u32);
        let er = encode_utf8(rest);
        lemma_encode_scalar_ascii(c[0], x, b);
        if c[0] == x {
            assert(e[0] == b);
            assert(e.take(0) =~= Seq::<u8>::empty());
            assert(c.take(0) =~= Seq::<char>::empty());
            assert(e.skip(1) =~= er);
            assert(c.skip(1) =~= rest);
        } else {
            lemma_find_in_bytes(rest, x, b);
            lemma_find_byte_after(e0, er, b);
            let k1 = find(rest, x) as int;
            let kb1 = find_byte(er, b) as int;
            assert(k == 1 + k1);
            assert(kb == e0.len() + kb1);
            assert(c.take(k).drop_first() =~= rest.take(k1));
            assert(c.take(k)[0] == c[0]);
            assert(e.take(kb) =~= e0 + er.take(kb1));
            if k < c.len() {
                assert(e.skip(kb + 1) =~= er.skip(kb1 + 1));
                assert(c.skip(k + 1) =~= rest.skip(k1 + 1));
            }
        }
    }
}

/// The bytes of a line without its carriage return are the bytes of the
/// line without theirs.
pub proof fn lemma_strip_cr_bytes(l: Seq<char>)
    ensures
        strip_cr_byte(encode_utf8(l)) == encode_utf8(strip_cr(l)),
{
    if l.len() > 0 {
        let init = l.drop_last();
        let last = l.last();
        assert(init.push(last) =~= l);
        lemma_encode_push(init, last);
        lemma_encode_scalar_ascii(last, '\r', 0x0d);
        let es = encode_scalar(last as u32);
        let e = encode_utf8(l);
        assert(e.last() == es[es.len() - 1]);
        if last == '\r' {
            assert(e.drop_last() =~= encode_utf8(init));
        }
    }
}

/// The bytes of each of a list of texts.
pub open spec fn encoded(ls: Seq<Seq<char>>) -> Seq<Seq<u8>> {
    ls.map_values(|l: Seq<char>| encode_utf8(l))
}

/// The lines of the bytes of a text are the bytes of the lines of the text.
pub proof fn lemma_byte_lines_of_text(c: Seq<char>)
    ensures
        byte_lines(encode_utf8(c)) == encoded(lines(c)),
    decreases c.len(),
{
    let e = encode_utf8(c);
    if c.len() == 0 {
        assert(byte_lines(e) =~= encoded(lines(c)));
    } else {
        lemma_encode_scalar_ascii(c[0], '\n', 0x0a);
        assert(e.len() > 0);
        lemma_find_in_bytes(c, '\n', 0x0a);
        let k = find(c, '\n') as int;
        let kb = find_byte(e, 0x0a) as int;
        if k >= c.len() {
            assert(byte_lines(e) =~= encoded(lines(c)));
        } else {
            lemma_byte_lines_of_text(c.skip(k + 1));
            lemma_strip_cr_bytes(c.take(k));
            assert(seq![encode_utf8(strip_cr(c.take(k)))] + encoded(lines(c.skip(k + 1)))
                =~= encoded(seq![strip_cr(c.take(k))] + lines(c.skip(k + 1))));
        }
    }
}

} // verus!
