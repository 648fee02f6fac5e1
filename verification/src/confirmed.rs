//! The log of confirmed writes that a crash test keeps beside a heap: one
//! line `key id` per record written, and a line `C count` each time the
//! writes so far were committed. Read back after a crash, the pairs before
//! the last commit line are confirmed, those after it are the unconfirmed
//! tail. Lines arrive split into their whitespace-separated fields.

use vstd::prelude::*;

verus! {

/// An ASCII decimal digit.
pub open spec fn is_digit(b: u8) -> bool {
    48 <= b <= 57
}

/// Whether every byte of `s` is a decimal digit.
pub open spec fn all_digits(s: Seq<u8>) -> bool {
    forall|i: int| 0 <= i < s.len() ==> is_digit(#[trigger] s[i])
}

/// The number that the decimal digits `s` spell, most significant first.
pub open spec fn digits_value(s: Seq<u8>) -> nat
    decreases s.len(),
{
    if s.len() == 0 {
        0
    } else {
        digits_value(s.drop_last()) * 10 + (s.last() - 48) as nat
    }
}

/// A field without its one optional leading `+`.
pub open spec fn unsigned_digits(field: Seq<u8>) -> Seq<u8> {
    if field.len() > 0 && field[0] == 43 {
        field.drop_first()
    } else {
        field
    }
}

/// The unsigned 64-bit number a field spells: an optional `+`, then one or
/// more decimal digits whose value fits in 64 bits; nothing otherwise.
pub open spec fn decimal_u64(field: Seq<u8>) -> Option<u64> {
    let d = unsigned_digits(field);
    if d.len() > 0 && all_digits(d) && digits_value(d) <= u64::MAX {
        Some(digits_value(d) as u64)
    } else {
        None
    }
}

/// The shortest decimal digits of `n`.
pub open spec fn decimal_of(n: nat) -> Seq<u8>
    decreases n,
{
    if n < 10 {
        seq![(48 + n) as u8]
    } else {
        decimal_of(n / 10).push((48 + n % 10) as u8)
    }
}

proof fn lemma_prefix_value(s: Seq<u8>, k: int)
    requires
        all_digits(s),
        0 <= k <= s.len(),
    ensures
        digits_value(s.subrange(0, k)) <= digits_value(s),
    decreases s.len() - k,
{
    if k < s.len() {
        lemma_prefix_value(s, k + 1);
        let longer = s.subrange(0, k + 1);
        assert(longer.drop_last() =~= s.subrange(0, k));
        assert(is_digit(s[k]));
        assert(digits_value(longer) == digits_value(s.subrange(0, k)) * 10 + (s[k] - 48) as nat);
    } else {
        assert(s.subrange(0, k) =~= s);
    }
}

/// Reads the unsigned 64-bit number a field spells, as `str::parse::<u64>`
/// reads it.
pub fn parse_decimal_u64(field: &[u8]) -> (r: Option<u64>)
    ensures
        r == decimal_u64(field@),
{
    let start: usize = if field.len() > 0 && field[0] == 43 {
        1
    } else {
        0
    };
    proof {
        assert(unsigned_digits(field@) =~= field@.subrange(start as int, field@.len() as int));
    }
    if start >= field.len() {
        return None;
    }
    let mut i: usize = start;
    let mut value: u64 = 0;
    while i < field.len()
        invariant
            start <= i <= field.len(),
            unsigned_digits(field@) =~= field@.subrange(start as int, field@.len() as int),
            all_digits(field@.subrange(start as int, i as int)),
            value == digits_value(field@.subrange(start as int, i as int)),
        decreases field.len() - i,
    {
        let ghost digits = field@.subrange(start as int, field@.len() as int);
        let b = field[i];
        if b < 48 || b > 57 {
            proof {
                assert(digits[i - start] == b);
            }
            return None;
        }
        let d: u64 = (b - 48) as u64;
        proof {
            assert(field@.subrange(start as int, i + 1).drop_last() =~= field@.subrange(
                start as int,
                i as int,
            ));
            assert(digits.subrange(0, i + 1 - start) =~= field@.subrange(start as int, i + 1));
        }
        if value > (u64::MAX - d) / 10 {
            proof {
                assert(value * 10 + d > u64::MAX) by (nonlinear_arith)
                    requires
                        value > (u64::MAX - d) / 10,
                        d <= 9,
                ;
                if all_digits(digits) {
                    lemma_prefix_value(digits, i + 1 - start);
                }
            }
            return None;
        }
        proof {
            assert(value * 10 + d <= u64::MAX) by (nonlinear_arith)
                requires
                    value <= (u64::MAX - d) / 10,
                    d <= 9,
            ;
        }
        value = value * 10 + d;
        i = i + 1;
    }
    Some(value)
}

proof fn lemma_decimal_digits(n: nat)
    ensures
        decimal_of(n).len() > 0,
        all_digits(decimal_of(n)),
        digits_value(decimal_of(n)) == n,
    decreases n,
{
    let s = decimal_of(n);
    if n >= 10 {
        lemma_decimal_digits(n / 10);
        assert(s.drop_last() =~= decimal_of(n / 10));
        assert(s.last() == (48 + n % 10) as u8);
        assert((s.last() - 48) as nat == n % 10);
        assert(digits_value(s) == digits_value(decimal_of(n / 10)) * 10 + n % 10);
        assert(n == (n / 10) * 10 + n % 10) by (nonlinear_arith);
        assert forall|i: int| 0 <= i < s.len() implies is_digit(#[trigger] s[i]) by {
            if i < s.len() - 1 {
                assert(s[i] == decimal_of(n / 10)[i]);
            }
        }
    } else {
        assert(s.drop_last() =~= Seq::<u8>::empty());
        assert(s.last() == (48 + n) as u8);
        assert((s.last() - 48) as nat == n);
        assert(digits_value(s) == digits_value(s.drop_last()) * 10 + (s.last() - 48) as nat);
        assert(is_digit(s[0]));
    }
}

/// Reading back the decimal digits of a number gives the number.
pub proof fn lemma_decimal_roundtrip(n: u64)
    ensures
        decimal_u64(decimal_of(n as nat)) == Some(n),
{
    lemma_decimal_digits(n as nat);
    assert(is_digit(decimal_of(n as nat)[0]));
}

fn push_decimal(out: &mut Vec<u8>, n: u64)
    ensures
        final(out)@ == old(out)@ + decimal_of(n as nat),
    decreases n,
{
    if n >= 10 {
        push_decimal(out, n / 10);
    }
    let digit: u8 = (n % 10) as u8;
    out.push(48 + digit);
    proof {
        if n >= 10 {
            assert(final(out)@ =~= old(out)@ + decimal_of(n as nat));
        } else {
            assert(final(out)@ =~= old(out)@ + decimal_of(n as nat));
        }
    }
}

/// The line that records writing `key` as record number `id`: `key id`.
pub fn written_line(key: u64, id: u64) -> (r: Vec<u8>)
    ensures
        r@ == decimal_of(key as nat) + seq![32u8] + decimal_of(id as nat) + seq![10u8],
{
    let mut line: Vec<u8> = Vec::new();
    push_decimal(&mut line, key);
    line.push(32);
    push_decimal(&mut line, id);
    line.push(10);
    proof {
        assert(line@ =~= decimal_of(key as nat) + seq![32u8] + decimal_of(id as nat) + seq![10u8]);
    }
    line
}

/// The line that records a commit after `count` writes: `C count`.
pub fn commit_line(count: u64) -> (r: Vec<u8>)
    ensures
        r@ == seq![67u8, 32u8] + decimal_of(count as nat) + seq![10u8],
{
    let mut line: Vec<u8> = Vec::new();
    line.push(67);
    line.push(32);
    push_decimal(&mut line, count);
    line.push(10);
    proof {
        assert(line@ =~= seq![67u8, 32u8] + decimal_of(count as nat) + seq![10u8]);
    }
    line
}

/// What one line of the log says.
#[derive(Debug, Clone, Copy, PartialEq, Eq, Structural)]
pub enum LogEntry {
    /// The writes so far were committed.
    Commit,
    /// Key `key` was written as record number `id`.
    Written { key: u64, id: u64 },
    /// Anything else, which the reader passes over.
    Other,
}

/// The views of a line's fields.
pub open spec fn field_views(fields: Seq<Vec<u8>>) -> Seq<Seq<u8>> {
    fields.map_values(|f: Vec<u8>| f@)
}

/// What a line with `fields` says: two fields of which the first is `C`
/// are a commit, two numbers are a write, anything else is passed over.
pub open spec fn entry_of(fields: Seq<Seq<u8>>) -> LogEntry {
    if fields.len() == 2 && fields[0] == seq![67u8] {
        LogEntry::Commit
    } else if fields.len() == 2 && decimal_u64(fields[0]) is Some && decimal_u64(fields[1]) is Some {
        LogEntry::Written { key: decimal_u64(fields[0])->0, id: decimal_u64(fields[1])->0 }
    } else {
        LogEntry::Other
    }
}

/// Tells what a line of the log says.
pub fn log_entry(fields: &Vec<Vec<u8>>) -> (r: LogEntry)
    ensures
        r == entry_of(field_views(fields@)),
{
    let ghost views = field_views(fields@);
    if fields.len() != 2 {
        return LogEntry::Other;
    }
    proof {
        assert(views[0] == fields@[0]@);
        assert(views[1] == fields@[1]@);
    }
    if fields[0].len() == 1 && fields[0][0] == 67 {
        proof {
            assert(views[0] =~= seq![67u8]);
        }
        return LogEntry::Commit;
    }
    proof {
        assert(views[0] != seq![67u8]) by {
            if views[0] == seq![67u8] {
                assert(views[0].len() == 1 && views[0][0] == 67);
            }
        }
    }
    match (parse_decimal_u64(fields[0].as_slice()), parse_decimal_u64(fields[1].as_slice())) {
        (Some(key), Some(id)) => LogEntry::Written { key, id },
        _ => LogEntry::Other,
    }
}

/// The confirmed pairs and the unconfirmed tail after one more entry: a
/// commit confirms the tail, a write joins the tail.
pub open spec fn after_entry(
    state: (Seq<(u64, u64)>, Seq<(u64, u64)>),
    entry: LogEntry,
) -> (Seq<(u64, u64)>, Seq<(u64, u64)>) {
    match entry {
        LogEntry::Commit => (state.0 + state.1, Seq::empty()),
        LogEntry::Written { key, id } => (state.0, state.1.push((key, id))),
        LogEntry::Other => state,
    }
}

/// The confirmed pairs and the unconfirmed tail that the lines `lines`
/// leave, read in order.
pub open spec fn log_state(lines: Seq<Seq<Seq<u8>>>) -> (Seq<(u64, u64)>, Seq<(u64, u64)>)
    decreases lines.len(),
{
    if lines.len() == 0 {
        (Seq::empty(), Seq::empty())
    } else {
        after_entry(log_state(lines.drop_last()), entry_of(lines.last()))
    }
}

/// Every pair the lines record, in order.
pub open spec fn written_pairs(lines: Seq<Seq<Seq<u8>>>) -> Seq<(u64, u64)>
    decreases lines.len(),
{
    if lines.len() == 0 {
        Seq::empty()
    } else {
        let before = written_pairs(lines.drop_last());
        match entry_of(lines.last()) {
            LogEntry::Written { key, id } => before.push((key, id)),
            _ => before,
        }
    }
}

/// The views of the lines of a log.
pub open spec fn line_views(lines: Seq<Vec<Vec<u8>>>) -> Seq<Seq<Seq<u8>>> {
    lines.map_values(|l: Vec<Vec<u8>>| field_views(l@))
}

/// A log read back: the pairs confirmed by a commit line and the tail of
/// pairs after the last one.
pub struct ConfirmedLog {
    pub confirmed: Vec<(u64, u64)>,
    pub tail: Vec<(u64, u64)>,
}

impl ConfirmedLog {
    /// Reads the lines of a log, each split into its fields.
    pub fn read(lines: &Vec<Vec<Vec<u8>>>) -> (r: ConfirmedLog)
        ensures
            (r.confirmed@, r.tail@) == log_state(line_views(lines@)),
    {
        let mut confirmed: Vec<(u64, u64)> = Vec::new();
        let mut tail: Vec<(u64, u64)> = Vec::new();
        let mut i: usize = 0;
        while i < lines.len()
            invariant
                i <= lines.len(),
                (confirmed@, tail@) == log_state(line_views(lines@).take(i as int)),
            decreases lines.len() - i,
        {
            let ghost views = line_views(lines@);
            proof {
                assert(views.take(i + 1).drop_last() =~= views.take(i as int));
                assert(views.take(i + 1).last() == views[i as int]);
            }
            match log_entry(&lines[i]) {
                LogEntry::Commit => {
                    confirmed.append(&mut tail);
                },
                LogEntry::Written { key, id } => {
                    tail.push((key, id));
                },
                LogEntry::Other => {},
            }
            proof {
                assert(confirmed@ == log_state(views.take(i + 1)).0);
                assert(tail@ =~= log_state(views.take(i + 1)).1);
            }
            i = i + 1;
        }
        proof {
            assert(line_views(lines@).take(lines@.len() as int) =~= line_views(lines@));
        }
        ConfirmedLog { confirmed, tail }
    }
}

/// Read back in order, a log's confirmed pairs followed by its tail are
/// every pair it records; a log whose last line is a commit has no tail.
pub proof fn lemma_log_keeps_every_pair(lines: Seq<Seq<Seq<u8>>>)
    ensures
        log_state(lines).0 + log_state(lines).1 == written_pairs(lines),
        lines.len() > 0 && entry_of(lines.last()) == LogEntry::Commit ==> log_state(lines).1
            == Seq::<(u64, u64)>::empty(),
    decreases lines.len(),
{
    if lines.len() > 0 {
        lemma_log_keeps_every_pair(lines.drop_last());
        let (c, t) = log_state(lines.drop_last());
        match entry_of(lines.last()) {
            LogEntry::Commit => {
                assert(c + t + Seq::<(u64, u64)>::empty() =~= c + t);
            },
            LogEntry::Written { key, id } => {
                assert(c + t.push((key, id)) =~= (c + t).push((key, id)));
            },
            LogEntry::Other => {},
        }
    }
}

/// The fields of a line that records a write read back as that write, and
/// those of a commit line as a commit.
pub proof fn lemma_lines_read_back(key: u64, id: u64)
    ensures
        entry_of(seq![decimal_of(key as nat), decimal_of(id as nat)]) == (LogEntry::Written { key, id }),
        entry_of(seq![seq![67u8], decimal_of(key as nat)]) == LogEntry::Commit,
{
    lemma_decimal_roundtrip(key);
    lemma_decimal_roundtrip(id);
    lemma_decimal_digits(key as nat);
    let d = decimal_of(key as nat);
    if d == seq![67u8] {
        assert(is_digit(d[0]));
    }
}

} // verus!
