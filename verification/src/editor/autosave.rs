//! Autosave policy and the rules behind session backups. The policy is
//! a pure state machine driven by injected time: the shell reads the
//! clock and hands in readings in nanoseconds of a monotonic clock. The
//! file copies themselves belong to the shell.
use vstd::prelude::*;
use vstd::string::*;
use vstd::utf8::*;
use crate::text::{dec_value, decimal, is_digit, push_decimal, push_str, sbytes, str_eq};

verus! {

/// How long the buffer must sit idle after an edit before it flushes:
/// one second, in nanoseconds.
pub const DEBOUNCE_NANOS: u64 = 1_000_000_000;

/// Whether the buffer has unsaved edits, and when the last one was made.
pub struct SavePolicy {
    dirty: bool,
    last_edit: Option<u64>,
}

/// `a - b`, or 0 when `b` is later (as `Instant::duration_since`).
pub open spec fn elapsed(now: u64, at: u64) -> int {
    if now >= at {
        now - at
    } else {
        0
    }
}

impl Default for SavePolicy {
    fn default() -> (r: Self)
        ensures
            !r.spec_dirty(),
            r.spec_last_edit() is None,
    {
        SavePolicy { dirty: false, last_edit: None }
    }
}

impl SavePolicy {
    pub closed spec fn spec_dirty(&self) -> bool {
        self.dirty
    }

    /// When the last unsaved edit was made.
    pub closed spec fn spec_last_edit(&self) -> Option<u64> {
        self.last_edit
    }

    /// Whether the policy flushes at `now`: dirty, and idle for the
    /// debounce since the last edit.
    pub open spec fn spec_should_flush(&self, now: u64) -> bool {
        &&& self.spec_dirty()
        &&& self.spec_last_edit() matches Some(at) && elapsed(now, at) >= DEBOUNCE_NANOS
    }

    pub fn record_edit(&mut self, now: u64)
        ensures
            final(self).spec_dirty(),
            final(self).spec_last_edit() == Some(now),
    {
        self.dirty = true;
        self.last_edit = Some(now);
    }

    pub fn is_dirty(&self) -> (r: bool)
        ensures
            r == self.spec_dirty(),
    {
        self.dirty
    }

    pub fn should_flush(&self, now: u64) -> (r: bool)
        ensures
            r == self.spec_should_flush(now),
    {
        match (self.dirty, self.last_edit) {
            (true, Some(at)) => {
                let idle = if now >= at {
                    now - at
                } else {
                    0
                };
                idle >= DEBOUNCE_NANOS
            },
            _ => false,
        }
    }

    /// Whether a save is owed right now (window close, tab switch): the
    /// dirty flag, left as it is until the caller saves and marks it.
    pub fn take_flush_now(&mut self) -> (r: bool)
        ensures
            r == old(self).spec_dirty(),
            *final(self) == *old(self),
    {
        self.dirty
    }

    pub fn mark_saved(&mut self)
        ensures
            !final(self).spec_dirty(),
            final(self).spec_last_edit() is None,
    {
        self.dirty = false;
        self.last_edit = None;
    }
}

/// An edit made at `at` and nothing since: the policy flushes at `now`
/// exactly when `now` is a debounce past `at`; and a saved policy never
/// flushes, whatever the time.
pub proof fn lemma_flush_follows_the_last_edit(p: SavePolicy, at: u64, now: u64)
    requires
        p.spec_dirty(),
        p.spec_last_edit() == Some(at),
    ensures
        p.spec_should_flush(now) <==> elapsed(now, at) >= DEBOUNCE_NANOS,
{
}

/// A saved (clean) policy never flushes.
pub proof fn lemma_clean_never_flushes(p: SavePolicy, now: u64)
    requires
        !p.spec_dirty(),
    ensures
        !p.spec_should_flush(now),
{
}

/// Reload-from-disk policy: only clean buffers whose file actually
/// changed reload; dirty buffers always keep the user's edits.
pub fn should_reload(dirty: bool, mtime_changed: bool) -> (r: bool)
    ensures
        r == (!dirty && mtime_changed),
{
    !dirty && mtime_changed
}

/// Whether saving would clobber something: the file's modification time
/// on disk (`actual`, nanoseconds since the epoch; None when no file is
/// there) differs from the one last seen (`expected`). A file that was
/// never seen but exists now is a conflict; nothing on disk is none.
pub fn has_conflict(expected: Option<i128>, actual: Option<i128>) -> (r: bool)
    ensures
        r == match (expected, actual) {
            (Some(e), Some(a)) => a != e,
            (None, Some(_)) => true,
            (_, None) => false,
        },
{
    match (expected, actual) {
        (Some(e), Some(a)) => a != e,
        (None, Some(_)) => true,
        (_, None) => false,
    }
}

/// A backup listing entry as plain values: name and stamp.
pub open spec fn entry_view(e: (String, u64)) -> (Seq<char>, u64) {
    (e.0@, e.1)
}

pub open spec fn entries_view(es: Seq<(String, u64)>) -> Seq<(Seq<char>, u64)> {
    Seq::new(es.len(), |i: int| entry_view(es[i]))
}

pub open spec fn names_view(ns: Seq<String>) -> Seq<Seq<char>> {
    Seq::new(ns.len(), |i: int| ns[i]@)
}

/// Older than `max_age` at `now` (the age saturating at 0).
pub open spec fn too_old(stamp: u64, now: u64, max_age: u64) -> bool {
    elapsed(now, stamp) > max_age
}

/// The names of the entries older than `max_age`, in listing order.
pub open spec fn aged_out(es: Seq<(Seq<char>, u64)>, now: u64, max_age: u64) -> Seq<Seq<char>>
    decreases es.len(),
{
    if es.len() == 0 {
        seq![]
    } else {
        let rest = aged_out(es.drop_last(), now, max_age);
        if too_old(es.last().1, now, max_age) {
            rest.push(es.last().0)
        } else {
            rest
        }
    }
}

/// The entries young enough to keep, in listing order.
pub open spec fn survivors(es: Seq<(Seq<char>, u64)>, now: u64, max_age: u64) -> Seq<(Seq<char>, u64)>
    decreases es.len(),
{
    if es.len() == 0 {
        seq![]
    } else {
        let rest = survivors(es.drop_last(), now, max_age);
        if too_old(es.last().1, now, max_age) {
            rest
        } else {
            rest.push(es.last())
        }
    }
}

/// Stable insertion by stamp: after every entry not newer than `x`.
pub open spec fn stamp_insert(s: Seq<(Seq<char>, u64)>, x: (Seq<char>, u64)) -> Seq<(Seq<char>, u64)>
    decreases s.len(),
{
    if s.len() == 0 {
        seq![x]
    } else if x.1 < s.last().1 {
        stamp_insert(s.drop_last(), x).push(s.last())
    } else {
        s.push(x)
    }
}

/// Stable sort by stamp, oldest first.
pub open spec fn stamp_sort(s: Seq<(Seq<char>, u64)>) -> Seq<(Seq<char>, u64)>
    decreases s.len(),
{
    if s.len() == 0 {
        seq![]
    } else {
        stamp_insert(stamp_sort(s.drop_last()), s.last())
    }
}

/// Which backups to delete: everything older than `max_age`, then the
/// oldest survivors beyond `max_files`.
pub open spec fn spec_plan_gc(es: Seq<(Seq<char>, u64)>, now: u64, max_files: usize, max_age: u64) -> Seq<Seq<char>> {
    let surv = survivors(es, now, max_age);
    let old = aged_out(es, now, max_age);
    if surv.len() > max_files {
        let sorted = stamp_sort(surv);
        old + Seq::new((surv.len() - max_files) as nat, |i: int| sorted[i].0)
    } else {
        old
    }
}

proof fn lemma_stamp_insert_len(s: Seq<(Seq<char>, u64)>, x: (Seq<char>, u64))
    ensures
        stamp_insert(s, x).len() == s.len() + 1,
    decreases s.len(),
{
    if s.len() > 0 && x.1 < s.last().1 {
        lemma_stamp_insert_len(s.drop_last(), x);
    }
}

proof fn lemma_stamp_sort_len(s: Seq<(Seq<char>, u64)>)
    ensures
        stamp_sort(s).len() == s.len(),
    decreases s.len(),
{
    if s.len() > 0 {
        lemma_stamp_sort_len(s.drop_last());
        lemma_stamp_insert_len(stamp_sort(s.drop_last()), s.last());
    }
}

fn insert_by_stamp(v: &mut Vec<(String, u64)>, x: (String, u64))
    ensures
        entries_view(final(v)@) == stamp_insert(entries_view(old(v)@), entry_view(x)),
{
    let ghost orig = entries_view(v@);
    let ghost raw = v@;
    let mut j = v.len();
    assert(orig.take(j as int) =~= orig);
    assert(orig.skip(j as int) =~= seq![]);
    while j > 0 && x.1 < v[j - 1].1
        invariant
            j <= v@.len(),
            v@ == raw,
            orig == entries_view(raw),
            stamp_insert(orig, entry_view(x)) == stamp_insert(orig.take(j as int), entry_view(x))
                + orig.skip(j as int),
        decreases j,
    {
        let ghost t = orig.take(j as int);
        assert(t.drop_last() =~= orig.take(j - 1));
        assert(t.last() == orig[j - 1]);
        assert(orig.skip(j - 1) =~= seq![orig[j - 1]] + orig.skip(j as int));
        assert(stamp_insert(t, entry_view(x)) == stamp_insert(orig.take(j - 1), entry_view(x)).push(
            orig[j - 1],
        ));
        assert(stamp_insert(t, entry_view(x)) + orig.skip(j as int) =~= stamp_insert(
            orig.take(j - 1),
            entry_view(x),
        ) + orig.skip(j - 1));
        j -= 1;
    }
    assert(stamp_insert(orig.take(j as int), entry_view(x)) =~= orig.take(j as int).push(
        entry_view(x),
    )) by {
        if j > 0 {
            assert(orig.take(j as int).last() == orig[j - 1]);
        }
    }
    let ghost xv = entry_view(x);
    v.insert(j, x);
    assert(entries_view(v@) =~= orig.take(j as int).push(xv) + orig.skip(j as int));
}

/// Which backup files to delete: everything older than `max_age`, then
/// the oldest beyond `max_files`. Entries are (name, stamp).
pub fn plan_gc(entries: &[(String, u64)], now: u64, max_files: usize, max_age: u64) -> (r: Vec<String>)
    ensures
        names_view(r@) == spec_plan_gc(entries_view(entries@), now, max_files, max_age),
{
    let ghost es = entries_view(entries@);
    let mut doomed: Vec<String> = Vec::new();
    let mut kept: Vec<(String, u64)> = Vec::new();
    let mut i: usize = 0;
    assert(es.take(0) =~= Seq::<(Seq<char>, u64)>::empty());
    assert(names_view(doomed@) =~= Seq::<Seq<char>>::empty());
    assert(entries_view(kept@) =~= Seq::<(Seq<char>, u64)>::empty());
    while i < entries.len()
        invariant
            i <= entries@.len(),
            es == entries_view(entries@),
            names_view(doomed@) == aged_out(es.take(i as int), now, max_age),
            entries_view(kept@) == survivors(es.take(i as int), now, max_age),
        decreases entries@.len() - i,
    {
        let name = entries[i].0.clone();
        let stamp = entries[i].1;
        assert(es.take(i + 1).drop_last() =~= es.take(i as int));
        assert(es.take(i + 1).last() == (name@, stamp));
        let age = if now >= stamp {
            now - stamp
        } else {
            0
        };
        if age > max_age {
            let ghost before = names_view(doomed@);
            doomed.push(name);
            assert(names_view(doomed@) =~= before.push(entries@[i as int].0@));
        } else {
            let ghost before = entries_view(kept@);
            kept.push((name, stamp));
            assert(entries_view(kept@) =~= before.push((entries@[i as int].0@, stamp)));
        }
        i += 1;
    }
    assert(es.take(i as int) =~= es);
    if kept.len() > max_files {
        let ghost surv = entries_view(kept@);
        let mut sorted: Vec<(String, u64)> = Vec::new();
        let mut k: usize = 0;
        let n = kept.len();
        assert(surv.take(0) =~= Seq::<(Seq<char>, u64)>::empty());
        assert(entries_view(sorted@) =~= Seq::<(Seq<char>, u64)>::empty());
        while k < n
            invariant
                k <= n == kept@.len(),
                surv == entries_view(kept@),
                entries_view(sorted@) == stamp_sort(surv.take(k as int)),
            decreases n - k,
        {
            let e = (kept[k].0.clone(), kept[k].1);
            assert(surv.take(k + 1).drop_last() =~= surv.take(k as int));
            assert(surv.take(k + 1).last() == entry_view(e));
            insert_by_stamp(&mut sorted, e);
            k += 1;
        }
        assert(surv.take(n as int) =~= surv);
        proof {
            lemma_stamp_sort_len(surv);
        }
        let ghost srt = entries_view(sorted@);
        let ghost base = names_view(doomed@);
        let extra = n - max_files;
        let mut j: usize = 0;
        while j < extra
            invariant
                j <= extra == n - max_files,
                n == surv.len(),
                srt == entries_view(sorted@),
                srt == stamp_sort(surv),
                srt.len() == n,
                names_view(doomed@) == base + Seq::new(j as nat, |q: int| srt[q].0),
            decreases extra - j,
        {
            let ghost before = names_view(doomed@);
            let c = sorted[j].0.clone();
            assert(c@ == srt[j as int].0);
            doomed.push(c);
            assert(names_view(doomed@) =~= before.push(srt[j as int].0));
            assert(base + Seq::new((j + 1) as nat, |q: int| srt[q].0) =~= (base + Seq::new(
                j as nat,
                |q: int| srt[q].0,
            )).push(srt[j as int].0));
            j += 1;
        }
    }
    doomed
}

/// Without a leading `+`.
pub open spec fn sign_stripped(s: Seq<u8>) -> Seq<u8> {
    if s.len() > 0 && s[0] == 43 {
        s.subrange(1, s.len() as int)
    } else {
        s
    }
}

pub open spec fn all_digits(d: Seq<u8>) -> bool {
    forall|k: int| 0 <= k < d.len() ==> is_digit(#[trigger] d[k])
}

/// `s.parse::<u64>()`: an optional `+`, then at least one ASCII digit
/// and nothing else, with a value that fits.
pub open spec fn spec_parse_u64(s: Seq<u8>) -> Option<nat> {
    let d = sign_stripped(s);
    if d.len() == 0 || !all_digits(d) || dec_value(d) > u64::MAX {
        None
    } else {
        Some(dec_value(d))
    }
}

/// The index of the first `-` in `name`, or its length.
pub open spec fn first_dash(b: Seq<u8>, i: int) -> int
    decreases b.len() - i,
{
    if i >= b.len() || i < 0 {
        b.len() as int
    } else if b[i] == 45 {
        i
    } else {
        first_dash(b, i + 1)
    }
}

/// The stamp a backup's name starts with: the part before the first
/// `-`, parsed as a number.
pub open spec fn spec_backup_stamp(name: Seq<u8>) -> Option<nat> {
    spec_parse_u64(name.subrange(0, first_dash(name, 0)))
}

proof fn lemma_first_dash(b: Seq<u8>, i: int)
    requires
        0 <= i <= b.len(),
    ensures
        i <= first_dash(b, i) <= b.len(),
    decreases b.len() - i,
{
    if i < b.len() && b[i] != 45 {
        lemma_first_dash(b, i + 1);
    }
}

proof fn lemma_dec_value_prefix(d: Seq<u8>, k: int)
    requires
        0 <= k <= d.len(),
        forall|j: int| 0 <= j < d.len() ==> is_digit(#[trigger] d[j]),
    ensures
        dec_value(d.take(k)) <= dec_value(d),
    decreases d.len() - k,
{
    if k < d.len() {
        lemma_dec_value_prefix(d, k + 1);
        assert(d.take(k + 1).drop_last() =~= d.take(k));
    } else {
        assert(d.take(k) =~= d);
    }
}

/// The stamp a backup's name starts with (`name.split('-').next()`
/// parsed as `u64`); None when that part is not a number.
pub fn backup_stamp(name: &str) -> (r: Option<u64>)
    ensures
        r matches Some(v) ==> spec_backup_stamp(name.spec_bytes()) == Some(v as nat),
        r is None ==> spec_backup_stamp(name.spec_bytes()) is None,
{
    let b = name.as_bytes();
    let ghost nb = b@;
    let mut e: usize = 0;
    while e < b.len() && b[e] != 45u8
        invariant
            e <= b@.len(),
            first_dash(nb, 0) == first_dash(nb, e as int),
            b@ == nb,
        decreases b@.len() - e,
    {
        e += 1;
    }
    proof {
        lemma_first_dash(nb, 0);
    }
    let ghost s = nb.subrange(0, e as int);
    let start: usize = if e > 0 && b[0] == 43u8 {
        1
    } else {
        0
    };
    let ghost d = nb.subrange(start as int, e as int);
    assert(d =~= sign_stripped(s));
    if start >= e {
        return None;
    }
    let mut v: u64 = 0;
    let mut k = start;
    assert(d.take(0) =~= Seq::<u8>::empty());
    while k < e
        invariant
            start <= k <= e <= nb.len(),
            b@ == nb,
            nb == name.spec_bytes(),
            e == first_dash(nb, 0),
            s == nb.subrange(0, e as int),
            d == nb.subrange(start as int, e as int),
            d == sign_stripped(s),
            d.len() > 0,
            forall|j: int| 0 <= j < k - start ==> is_digit(#[trigger] d[j]),
            v == dec_value(d.take(k - start)),
        decreases e - k,
    {
        let c = b[k];
        if !(48u8 <= c && c <= 57u8) {
            assert(d[k - start] == c);
            assert(!is_digit(d[k - start]));
            assert(spec_parse_u64(s) is None);
            return None;
        }
        assert(d.take(k + 1 - start).drop_last() =~= d.take(k - start));
        assert(d.take(k + 1 - start).last() == c);
        let digit = (c - 48u8) as u64;
        let next = match v.checked_mul(10) {
            Some(m) => m.checked_add(digit),
            None => None,
        };
        match next {
            Some(w) => {
                v = w;
            },
            None => {
                proof {
                    if all_digits(d) {
                        lemma_dec_value_prefix(d, k + 1 - start);
                        assert(dec_value(d.take(k + 1 - start)) == dec_value(d.take(k - start)) * 10
                            + (c - 48));
                        assert(dec_value(d) > u64::MAX);
                    }
                    assert(spec_parse_u64(s) is None);
                }
                return None;
            },
        }
        k += 1;
    }
    assert(d.take(e - start) =~= d);
    Some(v)
}

/// Decimal digits widened to three with leading zeros (`{:03}`).
pub open spec fn zero_pad3(d: Seq<u8>) -> Seq<u8> {
    if d.len() >= 3 {
        d
    } else if d.len() == 2 {
        seq![48u8] + d
    } else {
        seq![48u8, 48u8] + d
    }
}

/// The name a backup copy of `name` gets: `{stamp}-{counter:03}-{name}`.
pub open spec fn spec_backup_file_name(stamp: u64, counter: u64, name: Seq<u8>) -> Seq<u8> {
    decimal(stamp as nat) + seq![45u8] + zero_pad3(decimal(counter as nat)) + seq![45u8] + name
}

proof fn lemma_decimal_len(n: nat)
    ensures
        n < 10 ==> decimal(n).len() == 1,
        10 <= n < 100 ==> decimal(n).len() == 2,
        100 <= n ==> decimal(n).len() >= 3,
    decreases n,
{
    if n >= 10 {
        lemma_decimal_len(n / 10);
    }
}

/// The file name for a backup of `name` taken at `stamp` (seconds since
/// the epoch) as the session's `counter`-th copy.
pub fn backup_file_name(stamp: u64, counter: u64, name: &str) -> (r: String)
    ensures
        sbytes(r) == spec_backup_file_name(stamp, counter, name.spec_bytes()),
{
    proof {
        reveal_strlit("-");
        reveal_strlit("0");
        reveal_strlit("00");
        assert(is_ascii_chars("-"@));
        assert(is_ascii_chars("0"@));
        assert(is_ascii_chars("00"@));
        vstd::utf8::is_ascii_chars_encode_utf8("-"@);
        vstd::utf8::is_ascii_chars_encode_utf8("0"@);
        vstd::utf8::is_ascii_chars_encode_utf8("00"@);
        assert("-".spec_bytes() =~= seq![45u8]);
        assert("0".spec_bytes() =~= seq![48u8]);
        assert("00".spec_bytes() =~= seq![48u8, 48u8]);
        lemma_decimal_len(counter as nat);
    }
    let mut out = String::new();
    push_decimal(&mut out, stamp);
    push_str(&mut out, "-");
    let ghost at = sbytes(out);
    if counter < 10 {
        push_str(&mut out, "00");
    } else if counter < 100 {
        push_str(&mut out, "0");
    }
    push_decimal(&mut out, counter);
    assert(sbytes(out) =~= at + zero_pad3(decimal(counter as nat)));
    push_str(&mut out, "-");
    push_str(&mut out, name);
    out
}

/// What the disk says about a file about to be backed up, read by the
/// shell just before it asks the registry.
pub struct SourceFacts {
    /// The file exists.
    pub exists: bool,
    /// The file is byte-identical to its committed version, so version
    /// control already keeps it.
    pub same_as_head: bool,
    /// Seconds since the Unix epoch, now.
    pub stamp: u64,
    /// The file's name, when the path has one.
    pub file_name: Option<String>,
}

/// What to do about a backup.
#[derive(Debug, PartialEq, Eq)]
pub enum BackupPlan {
    /// This session already backed the file up.
    AlreadyDone,
    /// Nothing to copy: the file is missing or version control keeps it.
    Nothing,
    /// Copy the file to this name in the backup folder, then report it
    /// done with `mark_seen`.
    CopyTo(String),
}

/// Backups taken this session: which files were backed up, and how many
/// copies were made (numbering the copies' names).
pub struct BackupRegistry {
    seen: Vec<String>,
    counter: u64,
}

/// The name a copy of a file called `name` gets, `unnamed` without one.
pub open spec fn copy_name(stamp: u64, counter: u64, name: Option<String>) -> Seq<u8> {
    spec_backup_file_name(
        stamp,
        counter,
        match name {
            Some(n) => sbytes(n),
            None => encode_utf8("unnamed"@),
        },
    )
}

impl BackupRegistry {
    /// The files backed up this session.
    pub closed spec fn seen(&self) -> Set<Seq<char>> {
        Set::new(|p: Seq<char>| exists|i: int| 0 <= i < self.seen@.len() && self.seen@[i]@ == p)
    }

    /// The number of copies made this session.
    pub closed spec fn copies(&self) -> u64 {
        self.counter
    }

    pub fn new() -> (r: Self)
        ensures
            r.seen() == Set::<Seq<char>>::empty(),
            r.copies() == 0,
    {
        let r = BackupRegistry { seen: Vec::new(), counter: 0 };
        assert(r.seen() =~= Set::<Seq<char>>::empty());
        r
    }

    /// Whether `source` was backed up this session.
    pub fn is_seen(&self, source: &str) -> (r: bool)
        ensures
            r == self.seen().contains(source@),
    {
        let mut i: usize = 0;
        while i < self.seen.len()
            invariant
                i <= self.seen@.len(),
                forall|j: int| 0 <= j < i ==> (#[trigger] self.seen@[j])@ != source@,
            decreases self.seen@.len() - i,
        {
            if str_eq(self.seen[i].as_str(), source) {
                assert(self.seen().contains(source@)) by {
                    assert(self.seen@[i as int]@ == source@);
                }
                return true;
            }
            i += 1;
        }
        false
    }

    /// Records that `source` is backed up for this session.
    pub fn mark_seen(&mut self, source: &str)
        ensures
            final(self).seen() == old(self).seen().insert(source@),
            final(self).copies() == old(self).copies(),
    {
        let present = self.is_seen(source);
        let ghost before = self.seen@;
        if !present {
            let owned = source.to_owned();
            self.seen.push(owned);
            assert(self.seen@[before.len() as int]@ == source@);
        }
        proof {
            let old_seen = old(self).seen();
            if present {
                assert(self.seen@ == before);
                assert(old_seen.contains(source@));
            } else {
                assert(self.seen().contains(source@));
            }
            assert forall|p: Seq<char>| #[trigger] self.seen().contains(p) == old_seen.insert(
                source@,
            ).contains(p) by {
                if old_seen.insert(source@).contains(p) && p != source@ {
                    let i = choose|i: int| 0 <= i < old(self).seen@.len() && old(self).seen@[i]@ == p;
                    assert(self.seen@[i] == old(self).seen@[i]);
                }
                if self.seen().contains(p) {
                    let i = choose|i: int| 0 <= i < self.seen@.len() && self.seen@[i]@ == p;
                    if i < old(self).seen@.len() {
                        assert(self.seen@[i] == old(self).seen@[i]);
                    }
                }
            }
            assert(self.seen() =~= old_seen.insert(source@));
        }
    }

    /// The copy to make of a file: none for a missing file or one that
    /// version control keeps, else the next numbered name.
    fn plan_copy(&mut self, facts: &SourceFacts) -> (r: BackupPlan)
        requires
            old(self).copies() < u64::MAX,
        ensures
            final(self).seen() == old(self).seen(),
            !facts.exists || facts.same_as_head ==> r == BackupPlan::Nothing && final(self).copies()
                == old(self).copies(),
            facts.exists && !facts.same_as_head ==> final(self).copies() == old(self).copies() + 1
                && (r matches BackupPlan::CopyTo(name) && sbytes(name) == copy_name(
                facts.stamp,
                final(self).copies(),
                facts.file_name,
            )),
    {
        if !facts.exists || facts.same_as_head {
            return BackupPlan::Nothing;
        }
        self.counter = self.counter + 1;
        let name = match &facts.file_name {
            Some(n) => backup_file_name(facts.stamp, self.counter, n.as_str()),
            None => backup_file_name(facts.stamp, self.counter, "unnamed"),
        };
        BackupPlan::CopyTo(name)
    }

    /// The first backup of `source` this session: nothing when one was
    /// already taken, else the copy to make. A file with nothing to copy
    /// counts as backed up at once; a copy counts once `mark_seen` says
    /// it was made.
    pub fn backup_if_needed(&mut self, source: &str, facts: &SourceFacts) -> (r: BackupPlan)
        requires
            old(self).copies() < u64::MAX,
        ensures
            old(self).seen().contains(source@) ==> r == BackupPlan::AlreadyDone && final(self).seen()
                == old(self).seen() && final(self).copies() == old(self).copies(),
            !old(self).seen().contains(source@) && (!facts.exists || facts.same_as_head) ==> r
                == BackupPlan::Nothing && final(self).seen() == old(self).seen().insert(source@)
                && final(self).copies() == old(self).copies(),
            !old(self).seen().contains(source@) && facts.exists && !facts.same_as_head
                ==> final(self).seen() == old(self).seen() && final(self).copies() == old(
                self,
            ).copies() + 1 && (r matches BackupPlan::CopyTo(name) && sbytes(name) == copy_name(
                facts.stamp,
                final(self).copies(),
                facts.file_name,
            )),
    {
        if self.is_seen(source) {
            return BackupPlan::AlreadyDone;
        }
        let plan = self.plan_copy(facts);
        if let BackupPlan::Nothing = plan {
            self.mark_seen(source);
        }
        plan
    }

    /// A backup of `source` whether or not one was taken this session;
    /// the file counts as backed up from now on.
    pub fn force_backup(&mut self, source: &str, facts: &SourceFacts) -> (r: BackupPlan)
        requires
            old(self).copies() < u64::MAX,
        ensures
            final(self).seen() == old(self).seen().insert(source@),
            !facts.exists || facts.same_as_head ==> r == BackupPlan::Nothing && final(self).copies()
                == old(self).copies(),
            facts.exists && !facts.same_as_head ==> final(self).copies() == old(self).copies() + 1
                && (r matches BackupPlan::CopyTo(name) && sbytes(name) == copy_name(
                facts.stamp,
                final(self).copies(),
                facts.file_name,
            )),
    {
        self.mark_seen(source);
        self.plan_copy(facts)
    }
}

} // verus!
