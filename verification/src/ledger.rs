//! The usage ledger: for each session key the longest run time seen so far.
//!
//! A ledger keeps its entries in the order in which their keys first came
//! in. On disk it is one line per entry, `<key> <seconds>`.

use crate::interval::{covered, holds, merge_intervals, total_seconds, well_formed};
use crate::key::{key_fields, key_parts, same_chars};
use crate::text::{
    byte_lines, byte_views, chars_of, chars_of_bytes, copy_range, decimal_chars, decimal_text,
    encoded, find, free_of, is_digit, lemma_byte_lines_of_text, split_byte_lines,
    lemma_decimal_text_reads_back, lemma_find_is, lemma_lines_concat, lemma_lines_one,
    lemma_parse_decimal_text, lines, parse_u64, parse_unsigned, push_chars, scan, split_lines,
    strip_cr, views, CharClass,
};
use vstd::prelude::*;
use vstd::utf8::{
    decode_utf8, encode_utf8, encode_utf8_decode_utf8, encode_utf8_valid_utf8, valid_utf8,
};

verus! {

/// The entries of a ledger, in order: key and seconds.
pub type Entries = Seq<(Seq<char>, u64)>;

/// The entries as a map from key to seconds. Where a key occurs twice, the
/// later entry counts.
pub open spec fn map_of(l: Entries) -> Map<Seq<char>, u64>
    decreases l.len(),
{
    if l.len() == 0 {
        Map::empty()
    } else {
        map_of(l.drop_last()).insert(l.last().0, l.last().1)
    }
}

/// No key occurs twice.
pub open spec fn distinct_keys(l: Entries) -> bool {
    forall|i: int, j: int| 0 <= i < j < l.len() ==> (#[trigger] l[i]).0 != (#[trigger] l[j]).0
}

/// Whether some entry has this key.
pub open spec fn has_key(l: Entries, key: Seq<char>) -> bool {
    exists|i: int| 0 <= i < l.len() && (#[trigger] l[i]).0 == key
}

/// The entries with `seconds` stored for `key`: in the place of the first
/// entry with that key, or at the end if there is none.
pub open spec fn put(l: Entries, key: Seq<char>, seconds: u64) -> Entries
    decreases l.len(),
{
    if l.len() == 0 {
        seq![(key, seconds)]
    } else if l[0].0 == key {
        l.update(0, (key, seconds))
    } else {
        seq![l[0]] + put(l.drop_first(), key, seconds)
    }
}

/// The seconds on record once `observed` has been seen for `key`: a reading
/// below what is stored counts as no progress.
pub open spec fn recorded(m: Map<Seq<char>, u64>, key: Seq<char>, observed: u64) -> u64 {
    if m.contains_key(key) && m[key] > observed {
        m[key]
    } else {
        observed
    }
}

/// What a line of a ledger file says: the key before the first space, and
/// the seconds after it. A line without a space, or with anything but a
/// number that fits 64 bits after it, says nothing.
pub open spec fn line_entry(line: Seq<char>) -> Option<(Seq<char>, u64)> {
    let i = find(line, ' ');
    if i < line.len() {
        match parse_unsigned(line.skip(i as int + 1), u64::MAX as nat) {
            Some(seconds) => Some((line.take(i as int), seconds as u64)),
            None => None,
        }
    } else {
        None
    }
}

/// The ledger that lines give, read in order; lines that say nothing are
/// passed over.
pub open spec fn read_lines(ls: Seq<Seq<char>>) -> Entries
    decreases ls.len(),
{
    if ls.len() == 0 {
        seq![]
    } else {
        let before = read_lines(ls.drop_last());
        match line_entry(ls.last()) {
            Some((key, seconds)) => put(before, key, seconds),
            None => before,
        }
    }
}

/// The ledger that the text of a ledger file gives.
pub open spec fn read_ledger(content: Seq<char>) -> Entries {
    read_lines(lines(content))
}

/// The ledger that lines of bytes give, read in order. A line that is not
/// UTF-8 is passed over, as is a line that says nothing.
pub open spec fn read_byte_lines(ls: Seq<Seq<u8>>) -> Entries
    decreases ls.len(),
{
    if ls.len() == 0 {
        seq![]
    } else {
        let before = read_byte_lines(ls.drop_last());
        if valid_utf8(ls.last()) {
            match line_entry(decode_utf8(ls.last())) {
                Some((key, seconds)) => put(before, key, seconds),
                None => before,
            }
        } else {
            before
        }
    }
}

/// The ledger that the bytes of a ledger file give.
pub open spec fn read_ledger_bytes(content: Seq<u8>) -> Entries {
    read_byte_lines(byte_lines(content))
}

/// The line of one entry.
pub open spec fn line_text(key: Seq<char>, seconds: u64) -> Seq<char> {
    key + seq![' '] + decimal_text(seconds as nat) + seq!['\n']
}

/// The text of a ledger file.
pub open spec fn render(l: Entries) -> Seq<char>
    decreases l.len(),
{
    if l.len() == 0 {
        seq![]
    } else {
        render(l.drop_last()) + line_text(l.last().0, l.last().1)
    }
}

/// Addition that stops at the largest number.
pub open spec fn capped_sum(a: u64, b: u64) -> u64 {
    if a + b > u64::MAX {
        u64::MAX
    } else {
        (a + b) as u64
    }
}

/// The interval that an entry stands for on the day `today`: from the start
/// that its key names, for as long as its seconds say. An entry whose key is
/// no session key, or names another day, stands for none.
pub open spec fn entry_interval(key: Seq<char>, seconds: u64, today: Seq<char>) -> Option<
    (u64, u64),
> {
    match key_fields(key) {
        Some((_, start, date)) => if date == today {
            Some((start, capped_sum(start, seconds)))
        } else {
            None
        },
        None => None,
    }
}

/// The intervals of the entries that belong to `today`.
pub open spec fn todays_intervals(l: Entries, today: Seq<char>) -> Seq<(u64, u64)>
    decreases l.len(),
{
    if l.len() == 0 {
        seq![]
    } else {
        let before = todays_intervals(l.drop_last(), today);
        match entry_interval(l.last().0, l.last().1, today) {
            Some(iv) => before.push(iv),
            None => before,
        }
    }
}

/// The time that the sessions of `today` cover, each second counted once.
pub open spec fn todays_total(l: Entries, today: Seq<char>) -> nat {
    covered(todays_intervals(l, today)).len()
}

pub struct Entry {
    pub key: String,
    pub seconds: u64,
}

pub struct Ledger {
    rows: Vec<Entry>,
}

impl View for Ledger {
    type V = Map<Seq<char>, u64>;

    open spec fn view(&self) -> Map<Seq<char>, u64> {
        map_of(self.entries())
    }
}

// ---------------------------------------------------------------------------
// Listings and maps
// ---------------------------------------------------------------------------

pub proof fn lemma_map_of_keys(l: Entries, key: Seq<char>)
    ensures
        map_of(l).contains_key(key) <==> has_key(l, key),
    decreases l.len(),
{
    if l.len() > 0 {
        let init = l.drop_last();
        lemma_map_of_keys(init, key);
        if has_key(l, key) {
            let i = choose|i: int| 0 <= i < l.len() && (#[trigger] l[i]).0 == key;
            if i < init.len() {
                assert(init[i].0 == key);
            }
        }
        if has_key(init, key) {
            let i = choose|i: int| 0 <= i < init.len() && (#[trigger] init[i]).0 == key;
            assert(l[i].0 == key);
        }
        if l.last().0 == key {
            assert(l[l.len() - 1].0 == key);
        }
    }
}

/// With distinct keys, each entry is what the map holds for its key.
pub proof fn lemma_map_of_entry(l: Entries, i: int)
    requires
        distinct_keys(l),
        0 <= i < l.len(),
    ensures
        map_of(l).contains_key(l[i].0),
        map_of(l)[l[i].0] == l[i].1,
    decreases l.len(),
{
    let init = l.drop_last();
    if i < l.len() - 1 {
        assert forall|a: int, b: int| 0 <= a < b < init.len() implies (#[trigger] init[a]).0 != (
        #[trigger] init[b]).0 by {
            assert(l[a].0 != l[b].0);
        }
        lemma_map_of_entry(init, i);
        assert(init[i] == l[i]);
        assert(l[i].0 != l[l.len() - 1].0);
    }
}

/// Where `key` has its entry; past the last entry if it has none.
pub open spec fn place_of(l: Entries, key: Seq<char>) -> int {
    if has_key(l, key) {
        choose|i: int| 0 <= i < l.len() && (#[trigger] l[i]).0 == key
    } else {
        l.len() as int
    }
}

/// Storing seconds for a key changes the entry at the key's place and no
/// other.
pub proof fn lemma_put_places(l: Entries, key: Seq<char>, seconds: u64)
    requires
        distinct_keys(l),
    ensures
        0 <= place_of(l, key) <= l.len(),
        place_of(l, key) < l.len() ==> l[place_of(l, key)].0 == key,
        put(l, key, seconds).len() == if has_key(l, key) {
            l.len()
        } else {
            l.len() + 1
        },
        put(l, key, seconds)[place_of(l, key)] == (key, seconds),
        forall|i: int|
            0 <= i < put(l, key, seconds).len() && i != place_of(l, key) ==> #[trigger] put(
                l,
                key,
                seconds,
            )[i] == l[i] && l[i].0 != key,
{
    let p = put(l, key, seconds);
    let at = place_of(l, key);
    if has_key(l, key) {
        assert forall|j: int| 0 <= j < at implies (#[trigger] l[j]).0 != key by {
            assert(l[j].0 != l[at].0);
        }
        lemma_put_at(l, key, seconds, at);
    } else {
        lemma_put_shape(l, key, seconds);
    }
    assert(p[at] == (key, seconds));
    assert forall|i: int| 0 <= i < p.len() && i != at implies #[trigger] p[i] == l[i] && l[i].0
        != key by {
        if has_key(l, key) {
            if i < at {
                assert(l[i].0 != l[at].0);
            } else {
                assert(l[at].0 != l[i].0);
            }
        }
    }
}

/// Storing seconds for a key, seen as a map.
pub proof fn lemma_put(l: Entries, key: Seq<char>, seconds: u64)
    requires
        distinct_keys(l),
    ensures
        distinct_keys(put(l, key, seconds)),
        map_of(put(l, key, seconds)) == map_of(l).insert(key, seconds),
        forall|k: Seq<char>| has_key(put(l, key, seconds), k) <==> has_key(l, k) || k == key,
{
    let p = put(l, key, seconds);
    let at = place_of(l, key);
    lemma_put_places(l, key, seconds);
    assert forall|k: Seq<char>| has_key(p, k) <==> has_key(l, k) || k == key by {
        if has_key(p, k) {
            let i = choose|i: int| 0 <= i < p.len() && (#[trigger] p[i]).0 == k;
            if i != at {
                assert(l[i].0 == k);
            }
        }
        if has_key(l, k) {
            let i = choose|i: int| 0 <= i < l.len() && (#[trigger] l[i]).0 == k;
            assert(p[i].0 == k);
        }
        if k == key {
            assert(p[at].0 == key);
        }
    }
    assert forall|i: int, j: int| 0 <= i < j < p.len() implies (#[trigger] p[i]).0 != (
    #[trigger] p[j]).0 by {
        if i != at && j != at {
            assert(l[i].0 != l[j].0);
        }
    }
    assert(map_of(p) =~= map_of(l).insert(key, seconds)) by {
        assert forall|k: Seq<char>| map_of(p).contains_key(k) <==> map_of(l).insert(
            key,
            seconds,
        ).contains_key(k) by {
            lemma_map_of_keys(p, k);
            lemma_map_of_keys(l, k);
        }
        assert forall|k: Seq<char>| map_of(p).contains_key(k) implies map_of(p)[k] == map_of(
            l,
        ).insert(key, seconds)[k] by {
            lemma_map_of_keys(p, k);
            let i = choose|i: int| 0 <= i < p.len() && (#[trigger] p[i]).0 == k;
            lemma_map_of_entry(p, i);
            if i != at {
                assert(l[i] == p[i]);
                lemma_map_of_entry(l, i);
            }
        }
    }
}

/// Storing seconds for a key changes the one entry with that key, or adds
/// an entry at the end.
pub proof fn lemma_put_shape(l: Entries, key: Seq<char>, seconds: u64)
    ensures
        has_key(l, key) ==> put(l, key, seconds).len() == l.len(),
        !has_key(l, key) ==> put(l, key, seconds) == l.push((key, seconds)),
    decreases l.len(),
{
    let p = put(l, key, seconds);
    if l.len() == 0 {
        assert(p =~= l.push((key, seconds)));
    } else if l[0].0 == key {
        assert(p[0].0 == key);
    } else {
        let rest = l.drop_first();
        let q = put(rest, key, seconds);
        lemma_put_shape(rest, key, seconds);
        if has_key(l, key) {
            let i = choose|i: int| 0 <= i < l.len() && (#[trigger] l[i]).0 == key;
            assert(rest[i - 1].0 == key);
        } else {
            assert(!has_key(rest, key)) by {
                if has_key(rest, key) {
                    let i = choose|i: int| 0 <= i < rest.len() && (#[trigger] rest[i]).0 == key;
                    assert(l[i + 1].0 == key);
                }
            }
            assert(p =~= l.push((key, seconds)));
        }
    }
}

/// Where the first entry with `key` stands, its seconds are stored.
pub proof fn lemma_put_at(l: Entries, key: Seq<char>, seconds: u64, i: int)
    requires
        0 <= i < l.len(),
        l[i].0 == key,
        forall|j: int| 0 <= j < i ==> (#[trigger] l[j]).0 != key,
    ensures
        put(l, key, seconds) == l.update(i, (key, seconds)),
    decreases i,
{
    if i > 0 {
        let rest = l.drop_first();
        assert(l[0].0 != key);
        assert forall|j: int| 0 <= j < i - 1 implies (#[trigger] rest[j]).0 != key by {
            assert(rest[j] == l[j + 1]);
        }
        lemma_put_at(rest, key, seconds, i - 1);
        assert(seq![l[0]] + rest.update(i - 1, (key, seconds)) =~= l.update(i, (key, seconds)));
    }
}

impl Ledger {
    /// The entries, in the order in which their keys first came in.
    pub closed spec fn entries(&self) -> Entries {
        Seq::new(
            self.rows@.len(),
            |i: int| (self.rows@[i].key@, self.rows@[i].seconds),
        )
    }

    /// No key has two entries.
    #[verifier::type_invariant]
    spec fn inv(&self) -> bool {
        distinct_keys(self.entries())
    }

    /// A ledger without entries.
    pub fn new() -> (apps: Ledger)
        ensures
            apps.entries() == Seq::<(Seq<char>, u64)>::empty(),
            apps@ == Map::<Seq<char>, u64>::empty(),
    {
        let apps = Ledger { rows: Vec::new() };
        assert(apps.entries() =~= Seq::<(Seq<char>, u64)>::empty());
        apps
    }

    /// The number of entries.
    pub fn len(&self) -> (n: usize)
        ensures
            n == self.entries().len(),
    {
        self.rows.len()
    }

    fn position(&self, key: &str) -> (r: Option<usize>)
        ensures
            match r {
                Some(i) => i < self.entries().len() && self.entries()[i as int].0 == key@
                    && forall|j: int| 0 <= j < i ==> (#[trigger] self.entries()[j]).0 != key@,
                None => !has_key(self.entries(), key@),
            },
    {
        let wanted = chars_of(key);
        let mut i: usize = 0;
        while i < self.rows.len()
            invariant
                i <= self.rows.len(),
                wanted@ == key@,
                forall|j: int| 0 <= j < i ==> (#[trigger] self.entries()[j]).0 != key@,
            decreases self.rows.len() - i,
        {
            if same_chars(&chars_of(self.rows[i].key.as_str()), &wanted) {
                return Some(i);
            }
            i += 1;
        }
        None
    }

    /// The seconds stored for `key`, if it has an entry.
    pub fn get(&self, key: &str) -> (r: Option<u64>)
        ensures
            r == if self@.contains_key(key@) {
                Some(self@[key@])
            } else {
                None
            },
    {
        proof {
            use_type_invariant(self);
            lemma_map_of_keys(self.entries(), key@);
        }
        match self.position(key) {
            Some(i) => {
                proof {
                    lemma_map_of_entry(self.entries(), i as int);
                }
                Some(self.rows[i].seconds)
            },
            None => None,
        }
    }

    /// Stores `seconds` for `key`, whatever was stored for it before.
    pub fn insert(&mut self, key: &str, seconds: u64)
        ensures
            distinct_keys(old(self).entries()),
            distinct_keys(final(self).entries()),
            final(self).entries() == put(old(self).entries(), key@, seconds),
            final(self)@ == old(self)@.insert(key@, seconds),
    {
        proof {
            use_type_invariant(&*self);
            lemma_put(self.entries(), key@, seconds);
            lemma_put_shape(self.entries(), key@, seconds);
        }
        let entry = Entry { key: key.to_owned(), seconds };
        let at = self.position(key);
        let mut entries: Vec<Entry> = Vec::new();
        std::mem::swap(&mut self.rows, &mut entries);
        match at {
            Some(i) => {
                proof {
                    lemma_put_at(old(self).entries(), key@, seconds, i as int);
                }
                entries.set(i, entry);
            },
            None => {
                entries.push(entry);
            },
        }
        proof {
            let after = Seq::new(entries@.len(), |i: int| (entries@[i].key@, entries@[i].seconds));
            match at {
                Some(i) => {
                    assert(after =~= old(self).entries().update(i as int, (key@, seconds)));
                },
                None => {
                    assert(after =~= old(self).entries().push((key@, seconds)));
                },
            }
        }
        self.rows = entries;
    }

    /// Takes note that the session `key` has been seen to have run for
    /// `observed` seconds, and returns the seconds now on record for it:
    /// `observed` for a new key, and otherwise the larger of `observed` and
    /// what was on record.
    pub fn get_or_create(&mut self, key: &str, observed: u64) -> (now: u64)
        ensures
            distinct_keys(old(self).entries()),
            distinct_keys(final(self).entries()),
            now == recorded(old(self)@, key@, observed),
            now >= observed,
            old(self)@.contains_key(key@) ==> now >= old(self)@[key@],
            final(self).entries() == put(old(self).entries(), key@, now),
            final(self)@ == old(self)@.insert(key@, now),
    {
        let now = match self.get(key) {
            Some(stored) => if stored > observed {
                stored
            } else {
                observed
            },
            None => observed,
        };
        self.insert(key, now);
        now
    }

    /// The key and the seconds of entry `i`, if there are that many.
    pub fn entry(&self, i: usize) -> (r: Option<(String, u64)>)
        ensures
            r is Some <==> i < self.entries().len(),
            r matches Some((key, seconds)) ==> key@ == self.entries()[i as int].0 && seconds
                == self.entries()[i as int].1,
    {
        if i < self.rows.len() {
            Some((self.rows[i].key.clone(), self.rows[i].seconds))
        } else {
            None
        }
    }
}

/// Takes into the ledger what a line of a ledger file says.
fn take_line(apps: &mut Ledger, line: &Vec<char>)
    ensures
        final(apps).entries() == match line_entry(line@) {
            Some((key, seconds)) => put(old(apps).entries(), key, seconds),
            None => old(apps).entries(),
        },
{
    assert(line@.skip(0) =~= line@);
    let space = scan(line, 0, CharClass::Except(' '));
    if space < line.len() {
        let number = copy_range(line, space + 1, line.len());
        assert(number@ =~= line@.skip(space + 1));
        match parse_u64(&number) {
            Some(seconds) => {
                let key = copy_range(line, 0, space);
                assert(key@ =~= line@.take(space as int));
                let mut name = String::new();
                push_chars(&mut name, &key);
                assert(name@ =~= key@);
                apps.insert(name.as_str(), seconds);
            },
            None => {},
        }
    }
}

/// Reads a ledger from the text of a ledger file.
pub fn load_apps(content: &str) -> (apps: Ledger)
    ensures
        distinct_keys(apps.entries()),
        apps.entries() == read_ledger(content@),
{
    let text = chars_of(content);
    let ls = split_lines(&text);
    let ghost all = views(ls@);
    let mut apps = Ledger::new();
    let mut i: usize = 0;
    assert(all.take(0) =~= Seq::<Seq<char>>::empty());
    while i < ls.len()
        invariant
            i <= ls.len(),
            all == views(ls@),
            apps.entries() == read_lines(all.take(i as int)),
        decreases ls.len() - i,
    {
        proof {
            assert(all.take(i + 1).drop_last() =~= all.take(i as int));
            assert(all.take(i + 1).last() == ls@[i as int]@);
        }
        take_line(&mut apps, &ls[i]);
        i += 1;
    }
    assert(all.take(i as int) =~= all);
    proof {
        use_type_invariant(&apps);
    }
    apps
}

/// Reads a ledger from the bytes of a ledger file. A line that is not UTF-8
/// is passed over like any other line that says nothing.
pub fn load_apps_bytes(content: &[u8]) -> (apps: Ledger)
    ensures
        distinct_keys(apps.entries()),
        apps.entries() == read_ledger_bytes(content@),
{
    let ls = split_byte_lines(content);
    let ghost all = byte_views(ls@);
    let mut apps = Ledger::new();
    let mut i: usize = 0;
    assert(all.take(0) =~= Seq::<Seq<u8>>::empty());
    while i < ls.len()
        invariant
            i <= ls.len(),
            all == byte_views(ls@),
            apps.entries() == read_byte_lines(all.take(i as int)),
        decreases ls.len() - i,
    {
        proof {
            assert(all.take(i + 1).drop_last() =~= all.take(i as int));
            assert(all.take(i + 1).last() == ls@[i as int]@);
        }
        match chars_of_bytes(&ls[i]) {
            Some(line) => {
                take_line(&mut apps, &line);
            },
            None => {},
        }
        i += 1;
    }
    assert(all.take(i as int) =~= all);
    proof {
        use_type_invariant(&apps);
    }
    apps
}

/// The text of the ledger file for `apps`: one line for each entry.
pub fn save_apps(apps: &Ledger) -> (out: String)
    ensures
        out@ == render(apps.entries()),
{
    let mut out = String::new();
    let mut i: usize = 0;
    let mut gap: Vec<char> = Vec::new();
    gap.push(' ');
    let mut newline: Vec<char> = Vec::new();
    newline.push('\n');
    assert(apps.entries().take(0) =~= Seq::<(Seq<char>, u64)>::empty());
    while i < apps.rows.len()
        invariant
            i <= apps.rows.len(),
            gap@ == seq![' '],
            newline@ == seq!['\n'],
            out@ == render(apps.entries().take(i as int)),
        decreases apps.rows.len() - i,
    {
        let ghost l = apps.entries();
        proof {
            assert(l.take(i + 1).drop_last() =~= l.take(i as int));
            assert(l.take(i + 1).last() == l[i as int]);
        }
        let ghost before = out@;
        let entry = &apps.rows[i];
        push_chars(&mut out, &chars_of(entry.key.as_str()));
        push_chars(&mut out, &gap);
        push_chars(&mut out, &decimal_chars(entry.seconds));
        push_chars(&mut out, &newline);
        assert(out@ =~= before + line_text(l[i as int].0, l[i as int].1));
        i += 1;
    }
    assert(apps.entries().take(i as int) =~= apps.entries());
    out
}

/// The time that the sessions of `today` cover, in seconds: the entries
/// whose keys name `today` are taken as intervals from their start, and a
/// second that lies in several of them counts once.
pub fn sum_seconds_for_today(apps: &Ledger, today: &str) -> (total: u64)
    ensures
        total == todays_total(apps.entries(), today@),
{
    let day = chars_of(today);
    let mut intervals: Vec<(u64, u64)> = Vec::new();
    let mut i: usize = 0;
    let ghost l = apps.entries();
    assert(l.take(0) =~= Seq::<(Seq<char>, u64)>::empty());
    while i < apps.rows.len()
        invariant
            i <= apps.rows.len(),
            l == apps.entries(),
            day@ == today@,
            well_formed(intervals@),
            intervals@ == todays_intervals(l.take(i as int), today@),
        decreases apps.rows.len() - i,
    {
        proof {
            assert(l.take(i + 1).drop_last() =~= l.take(i as int));
            assert(l.take(i + 1).last() == l[i as int]);
        }
        let entry = &apps.rows[i];
        let key = chars_of(entry.key.as_str());
        match key_parts(&key) {
            Some((_app, start, date)) => {
                if same_chars(&date, &day) {
                    let end: u64 = if entry.seconds > u64::MAX - start {
                        u64::MAX
                    } else {
                        start + entry.seconds
                    };
                    intervals.push((start, end));
                }
            },
            None => {},
        }
        i += 1;
    }
    assert(l.take(i as int) =~= l);
    let merged = merge_intervals(intervals);
    total_seconds(&merged)
}

// ---------------------------------------------------------------------------
// What holds of every run of observations
// ---------------------------------------------------------------------------

/// The map after a run of observations, each a key and the seconds seen.
pub open spec fn after_calls(m: Map<Seq<char>, u64>, calls: Seq<(Seq<char>, u64)>) -> Map<
    Seq<char>,
    u64,
>
    decreases calls.len(),
{
    if calls.len() == 0 {
        m
    } else {
        let before = after_calls(m, calls.drop_last());
        before.insert(calls.last().0, recorded(before, calls.last().0, calls.last().1))
    }
}

/// What is on record for a key never becomes less, whatever is observed
/// afterwards, for this key or for others.
pub proof fn law_record_never_decreases(
    m: Map<Seq<char>, u64>,
    calls: Seq<(Seq<char>, u64)>,
    key: Seq<char>,
)
    requires
        m.contains_key(key),
    ensures
        after_calls(m, calls).contains_key(key),
        after_calls(m, calls)[key] >= m[key],
    decreases calls.len(),
{
    if calls.len() > 0 {
        law_record_never_decreases(m, calls.drop_last(), key);
    }
}

/// An interval belongs to the day exactly when some entry stands for it.
pub proof fn lemma_todays_intervals(l: Entries, today: Seq<char>, x: (u64, u64))
    ensures
        todays_intervals(l, today).contains(x) <==> exists|i: int|
            0 <= i < l.len() && entry_interval((#[trigger] l[i]).0, l[i].1, today) == Some(x),
    decreases l.len(),
{
    if l.len() > 0 {
        let init = l.drop_last();
        let last = l.last();
        lemma_todays_intervals(init, today, x);
        let before = todays_intervals(init, today);
        if let Some(iv) = entry_interval(last.0, last.1, today) {
            crate::interval::lemma_contains_push(before, iv);
        }
        if todays_intervals(l, today).contains(x) {
            if before.contains(x) {
                let i = choose|i: int|
                    0 <= i < init.len() && entry_interval((#[trigger] init[i]).0, init[i].1, today)
                        == Some(x);
                assert(l[i] == init[i]);
            } else {
                assert(entry_interval(l[l.len() - 1].0, l[l.len() - 1].1, today) == Some(x));
            }
        }
        if exists|i: int|
            0 <= i < l.len() && entry_interval((#[trigger] l[i]).0, l[i].1, today) == Some(x) {
            let i = choose|i: int|
                0 <= i < l.len() && entry_interval((#[trigger] l[i]).0, l[i].1, today) == Some(x);
            if i < init.len() {
                assert(init[i] == l[i]);
            }
        }
    }
}

/// An observation never makes the day's total less.
pub proof fn law_total_never_decreases(
    l: Entries,
    key: Seq<char>,
    observed: u64,
    today: Seq<char>,
)
    requires
        distinct_keys(l),
    ensures
        todays_total(put(l, key, recorded(map_of(l), key, observed)), today) >= todays_total(
            l,
            today,
        ),
{
    let now = recorded(map_of(l), key, observed);
    let p = put(l, key, now);
    let at = place_of(l, key);
    lemma_put_places(l, key, now);
    let before = todays_intervals(l, today);
    let after = todays_intervals(p, today);
    assert forall|t: int| covered(before).contains(t) implies covered(after).contains(t) by {
        let x = choose|x: (u64, u64)| #[trigger] before.contains(x) && holds(x, t);
        lemma_todays_intervals(l, today, x);
        let i = choose|i: int|
            0 <= i < l.len() && entry_interval((#[trigger] l[i]).0, l[i].1, today) == Some(x);
        if i != at {
            assert(p[i] == l[i]);
            lemma_todays_intervals(p, today, x);
            assert(after.contains(x) && holds(x, t));
        } else {
            lemma_map_of_entry(l, at);
            let y = entry_interval(p[at].0, p[at].1, today)->0;
            lemma_todays_intervals(p, today, y);
            assert(after.contains(y) && holds(y, t));
        }
    }
    crate::interval::lemma_covered_finite(after);
    vstd::set_lib::lemma_len_subset(covered(before), covered(after));
}

// ---------------------------------------------------------------------------
// A ledger file reads back
// ---------------------------------------------------------------------------

/// A key that a ledger file can hold: without spaces and line feeds.
pub open spec fn plain_key(key: Seq<char>) -> bool {
    free_of(key, ' ') && free_of(key, '\n')
}

/// The line of one entry, without the line feed that ends it.
pub open spec fn entry_line(key: Seq<char>, seconds: u64) -> Seq<char> {
    key + seq![' '] + decimal_text(seconds as nat)
}

proof fn lemma_entry_line(key: Seq<char>, seconds: u64)
    requires
        plain_key(key),
    ensures
        lines(line_text(key, seconds)) == seq![entry_line(key, seconds)],
        line_entry(entry_line(key, seconds)) == Some((key, seconds)),
        line_text(key, seconds).last() == '\n',
{
    let digits = decimal_text(seconds as nat);
    let x = entry_line(key, seconds);
    let n = key.len() as int;
    lemma_decimal_text_reads_back(seconds as nat);
    assert forall|i: int| 0 <= i < x.len() implies #[trigger] x[i] != '\n' by {
        if i < n {
            assert(x[i] == key[i]);
        } else if i > n {
            assert(x[i] == digits[i - n - 1]);
            assert(is_digit(digits[i - n - 1]));
        }
    }
    assert(x.last() == digits.last());
    assert(is_digit(digits[digits.len() - 1]));
    assert(strip_cr(x) == x);
    assert(line_text(key, seconds) =~= x + seq!['\n']);
    lemma_lines_one(x);
    assert(x.take(n) =~= key);
    assert(x[n] == ' ');
    lemma_find_is(x, ' ', n);
    assert(x.skip(n + 1) =~= digits);
    lemma_parse_decimal_text(seconds as nat, u64::MAX as nat);
}

/// Reading what was written gives the ledger that was written, where no key
/// holds a space or a line feed.
pub proof fn law_ledger_reads_back(l: Entries)
    requires
        distinct_keys(l),
        forall|i: int| 0 <= i < l.len() ==> plain_key((#[trigger] l[i]).0),
    ensures
        read_ledger(render(l)) == l,
        lines(render(l)).len() == l.len(),
        render(l).len() == 0 || render(l).last() == '\n',
    decreases l.len(),
{
    if l.len() == 0 {
        assert(read_ledger(render(l)) =~= l);
    } else {
        let init = l.drop_last();
        let (key, seconds) = l.last();
        assert(l[l.len() - 1] == (key, seconds));
        assert forall|i: int| 0 <= i < init.len() implies plain_key((#[trigger] init[i]).0) by {
            assert(init[i] == l[i]);
        }
        assert forall|i: int, j: int| 0 <= i < j < init.len() implies (#[trigger] init[i]).0 != (
        #[trigger] init[j]).0 by {
            assert(l[i].0 != l[j].0);
        }
        law_ledger_reads_back(init);
        lemma_entry_line(key, seconds);
        lemma_lines_concat(render(init), line_text(key, seconds));
        let before = lines(render(init));
        let all = lines(render(l));
        assert(all == before + seq![entry_line(key, seconds)]);
        assert(all.drop_last() =~= before);
        assert(all.last() == entry_line(key, seconds));
        assert(!has_key(init, key)) by {
            if has_key(init, key) {
                let i = choose|i: int| 0 <= i < init.len() && (#[trigger] init[i]).0 == key;
                assert(l[i].0 != l[l.len() - 1].0);
            }
        }
        lemma_put_shape(init, key, seconds);
        assert(init.push((key, seconds)) =~= l);
    }
}

proof fn lemma_read_encoded_lines(ls: Seq<Seq<char>>)
    ensures
        read_byte_lines(encoded(ls)) == read_lines(ls),
    decreases ls.len(),
{
    if ls.len() > 0 {
        lemma_read_encoded_lines(ls.drop_last());
        assert(encoded(ls).drop_last() =~= encoded(ls.drop_last()));
        assert(encoded(ls).last() == encode_utf8(ls.last()));
        encode_utf8_valid_utf8(ls.last());
        encode_utf8_decode_utf8(ls.last());
    }
}

/// Read from its bytes, a text gives the ledger that it gives as a text.
pub proof fn law_bytes_read_as_text(content: Seq<char>)
    ensures
        read_ledger_bytes(encode_utf8(content)) == read_ledger(content),
{
    lemma_byte_lines_of_text(content);
    lemma_read_encoded_lines(lines(content));
}

/// Reading the bytes of what was written gives the ledger that was written,
/// where no key holds a space or a line feed.
pub proof fn law_ledger_file_reads_back(l: Entries)
    requires
        distinct_keys(l),
        forall|i: int| 0 <= i < l.len() ==> plain_key((#[trigger] l[i]).0),
    ensures
        read_ledger_bytes(encode_utf8(render(l))) == l,
{
    law_ledger_reads_back(l);
    law_bytes_read_as_text(render(l));
}

} // verus!
