use vstd::prelude::*;
use crate::error::GraphError;
use crate::persistence::{Operation, OperationLogEntry};
use crate::text::{decimal, split_on, push_char, push_decimal, push_str, chars_of, same_chars, string_of};
use crate::text_format::{text_lines, read_number, lines_of, read_number_chars, with_newlines};

verus! {

/// An operation as plain values.
pub enum OperationView {
    AddUser(u64, Seq<char>),
    AddFollow(u64, u64),
    RemoveFollow(u64, u64),
}

pub open spec fn operation_view(op: Operation) -> OperationView {
    match op {
        Operation::AddUser { id, name } => OperationView::AddUser(id, name@),
        Operation::AddFollow { source, target } => OperationView::AddFollow(source, target),
        Operation::RemoveFollow { source, target } => OperationView::RemoveFollow(source, target),
    }
}

pub open spec fn entry_view(entry: OperationLogEntry) -> (u64, OperationView) {
    (entry.sequence, operation_view(entry.operation))
}

/// The line an operation is logged as: its sequence number, its kind and its fields, each
/// after a `|`.
pub open spec fn operation_line(sequence: u64, op: OperationView) -> Seq<char> {
    decimal(sequence as nat) + seq!['|'] + match op {
        OperationView::AddUser(id, name) => "ADD_USER|"@ + decimal(id as nat) + seq!['|'] + name,
        OperationView::AddFollow(source, target) => "ADD_FOLLOW|"@ + decimal(source as nat) + seq!['|'] + decimal(target as nat),
        OperationView::RemoveFollow(source, target) => "REMOVE_FOLLOW|"@ + decimal(source as nat) + seq!['|'] + decimal(
            target as nat,
        ),
    }
}

/// The pieces of `s` between occurrences of `sep`, at most `limit` of them, the last
/// holding the rest, as `str::splitn` gives them.
pub open spec fn split_limited(s: Seq<char>, sep: char, limit: nat) -> Seq<Seq<char>>
    decreases s.len(),
{
    if s.len() == 0 {
        seq![Seq::empty()]
    } else {
        let prev = split_limited(s.drop_last(), sep, limit);
        if s.last() == sep && prev.len() < limit {
            prev.push(Seq::empty())
        } else {
            prev.update(prev.len() - 1, prev.last().push(s.last()))
        }
    }
}

pub proof fn lemma_split_limited_nonempty(s: Seq<char>, sep: char, limit: nat)
    ensures
        split_limited(s, sep, limit).len() >= 1,
        limit >= 1 ==> split_limited(s, sep, limit).len() <= limit,
    decreases s.len(),
{
    if s.len() > 0 {
        lemma_split_limited_nonempty(s.drop_last(), sep, limit);
    }
}

/// The source and target of a follow line, or the message of the first that does not parse.
pub open spec fn read_pair(parts: Seq<Seq<char>>) -> Result<(nat, nat), Seq<char>> {
    match read_number(parts[2], u64::MAX as nat, "Invalid source: "@) {
        Err(m) => Err(m),
        Ok(source) => match read_number(parts[3], u64::MAX as nat, "Invalid target: "@) {
            Err(m) => Err(m),
            Ok(target) => Ok((source, target)),
        },
    }
}

/// What one line of the log holds: an entry, nothing (a line that is skipped), or the
/// message of a number that does not parse.
pub open spec fn log_line_entry(line: Seq<char>) -> Result<Option<(u64, OperationView)>, Seq<char>> {
    let parts = split_limited(line, '|', 4);
    if line.len() == 0 || parts.len() < 2 {
        Ok(None)
    } else {
        match read_number(parts[0], u64::MAX as nat, "Invalid sequence: "@) {
            Err(m) => Err(m),
            Ok(sequence) => if parts[1] == "ADD_USER"@ {
                if parts.len() < 3 {
                    Ok(None)
                } else {
                    match read_number(parts[2], u64::MAX as nat, "Invalid user id: "@) {
                        Err(m) => Err(m),
                        Ok(id) => Ok(
                            Some(
                                (
                                    sequence as u64,
                                    OperationView::AddUser(
                                        id as u64,
                                        if parts.len() > 3 {
                                            parts[3]
                                        } else {
                                            Seq::empty()
                                        },
                                    ),
                                ),
                            ),
                        ),
                    }
                }
            } else if parts[1] == "ADD_FOLLOW"@ || parts[1] == "REMOVE_FOLLOW"@ {
                if parts.len() < 4 {
                    Ok(None)
                } else {
                    match read_pair(parts) {
                        Err(m) => Err(m),
                        Ok(pair) => Ok(
                            Some(
                                (
                                    sequence as u64,
                                    if parts[1] == "ADD_FOLLOW"@ {
                                        OperationView::AddFollow(pair.0 as u64, pair.1 as u64)
                                    } else {
                                        OperationView::RemoveFollow(pair.0 as u64, pair.1 as u64)
                                    },
                                ),
                            ),
                        ),
                    }
                }
            } else {
                Ok(None)
            },
        }
    }
}

/// The entries of `lines` in order; the first line that fails decides the error.
pub open spec fn log_fold(lines: Seq<Seq<char>>) -> Result<Seq<(u64, OperationView)>, Seq<char>>
    decreases lines.len(),
{
    if lines.len() == 0 {
        Ok(Seq::empty())
    } else {
        match log_fold(lines.drop_last()) {
            Err(m) => Err(m),
            Ok(entries) => match log_line_entry(lines.last()) {
                Err(m) => Err(m),
                Ok(None) => Ok(entries),
                Ok(Some(entry)) => Ok(entries.push(entry)),
            },
        }
    }
}

/// What `read_operation_log` reads from the text of a log.
pub open spec fn parse_operation_log_text(text: Seq<char>) -> Result<Seq<(u64, OperationView)>, Seq<char>> {
    log_fold(text_lines(text))
}

} // verus!

verus! {

/// The pieces of `chars` between occurrences of `sep`, as `split_limited` gives them.
pub fn split_limited_chars(chars: &[char], sep: char, limit: usize) -> (pieces: Vec<Vec<char>>)
    ensures
        pieces@.len() == split_limited(chars@, sep, limit as nat).len(),
        forall|k: int| 0 <= k < pieces@.len() ==> (#[trigger] pieces@[k])@ == split_limited(chars@, sep, limit as nat)[k],
{
    let mut pieces: Vec<Vec<char>> = Vec::new();
    let mut current: Vec<char> = Vec::new();
    proof {
        assert(chars@.take(0) =~= Seq::<char>::empty());
    }
    for i in 0..chars.len()
        invariant
            split_limited(chars@.take(i as int), sep, limit as nat).len() == pieces@.len() + 1,
            forall|k: int| 0 <= k < pieces@.len() ==> (#[trigger] pieces@[k])@ == split_limited(chars@.take(i as int), sep, limit as nat)[k],
            current@ == split_limited(chars@.take(i as int), sep, limit as nat).last(),
    {
        proof {
            assert(chars@.take(i + 1).drop_last() =~= chars@.take(i as int));
            assert(chars@.take(i + 1).last() == chars@[i as int]);
        }
        if chars[i] == sep && limit > 0 && pieces.len() < limit - 1 {
            pieces.push(current);
            current = Vec::new();
        } else {
            current.push(chars[i]);
        }
    }
    proof {
        assert(chars@.take(chars@.len() as int) =~= chars@);
    }
    pieces.push(current);
    pieces
}

/// The line `append_operation` writes for `op` at `sequence`, without its newline.
pub fn format_operation_line(sequence: u64, op: &Operation) -> (line: String)
    ensures
        line@ == operation_line(sequence, operation_view(*op)),
{
    let mut line = String::new();
    push_decimal(&mut line, sequence);
    push_char(&mut line, '|');
    match op {
        Operation::AddUser { id, name } => {
            push_str(&mut line, "ADD_USER|");
            push_decimal(&mut line, *id);
            push_char(&mut line, '|');
            push_str(&mut line, name.as_str());
        },
        Operation::AddFollow { source, target } => {
            push_str(&mut line, "ADD_FOLLOW|");
            push_decimal(&mut line, *source);
            push_char(&mut line, '|');
            push_decimal(&mut line, *target);
        },
        Operation::RemoveFollow { source, target } => {
            push_str(&mut line, "REMOVE_FOLLOW|");
            push_decimal(&mut line, *source);
            push_char(&mut line, '|');
            push_decimal(&mut line, *target);
        },
    }
    line
}

fn read_log_line(line: &Vec<char>) -> (result: Result<Option<OperationLogEntry>, GraphError>)
    ensures
        match log_line_entry(line@) {
            Ok(None) => result matches Ok(None),
            Ok(Some(entry)) => result matches Ok(Some(e)) && entry_view(e) == entry,
            Err(m) => result matches Err(GraphError::IoError(e)) && e@ == m,
        },
{
    let parts = split_limited_chars(line, '|', 4);
    proof {
        lemma_split_limited_nonempty(line@, '|', 4);
    }
    if line.len() == 0 || parts.len() < 2 {
        return Ok(None);
    }
    let sequence = read_number_chars(&parts[0], u64::MAX, "Invalid sequence: ")?;
    let add_user = chars_of("ADD_USER");
    let add_follow = chars_of("ADD_FOLLOW");
    let remove_follow = chars_of("REMOVE_FOLLOW");
    if same_chars(&parts[1], &add_user) {
        if parts.len() < 3 {
            return Ok(None);
        }
        let id = read_number_chars(&parts[2], u64::MAX, "Invalid user id: ")?;
        let name = if parts.len() > 3 {
            string_of(&parts[3])
        } else {
            String::new()
        };
        return Ok(Some(OperationLogEntry { sequence, operation: Operation::AddUser { id, name } }));
    }
    let is_add = same_chars(&parts[1], &add_follow);
    let is_remove = same_chars(&parts[1], &remove_follow);
    if !is_add && !is_remove {
        return Ok(None);
    }
    if parts.len() < 4 {
        return Ok(None);
    }
    let source = read_number_chars(&parts[2], u64::MAX, "Invalid source: ")?;
    let target = read_number_chars(&parts[3], u64::MAX, "Invalid target: ")?;
    let operation = if is_add {
        Operation::AddFollow { source, target }
    } else {
        Operation::RemoveFollow { source, target }
    };
    Ok(Some(OperationLogEntry { sequence, operation }))
}

proof fn lemma_log_fold_prefix_err(lines: Seq<Seq<char>>, k: int)
    requires
        0 <= k <= lines.len(),
        log_fold(lines.take(k)) is Err,
    ensures
        log_fold(lines) == log_fold(lines.take(k)),
    decreases lines.len() - k,
{
    if k < lines.len() {
        assert(lines.take(k + 1).drop_last() =~= lines.take(k));
        lemma_log_fold_prefix_err(lines, k + 1);
    } else {
        assert(lines.take(k) =~= lines);
    }
}

/// Reads the entries of a log whose lines `format_operation_line` wrote. Empty lines,
/// lines with fewer fields than their kind needs and lines of unknown kind are skipped; a
/// number that does not parse is an `IoError` naming the field.
pub fn parse_operation_log(text: &str) -> (result: Result<Vec<OperationLogEntry>, GraphError>)
    ensures
        match parse_operation_log_text(text@) {
            Ok(entries) => result matches Ok(v) && v@.map_values(|e: OperationLogEntry| entry_view(e)) == entries,
            Err(m) => result matches Err(GraphError::IoError(e)) && e@ == m,
        },
{
    let chars = chars_of(text);
    let lines = lines_of(&chars);
    let ghost all = text_lines(text@);
    let mut entries: Vec<OperationLogEntry> = Vec::new();
    proof {
        assert(lines@.map_values(|line: Vec<char>| line@).len() == lines@.len());
        assert(all.take(0) =~= Seq::<Seq<char>>::empty());
        assert(entries@.map_values(|e: OperationLogEntry| entry_view(e)) =~= Seq::<(u64, OperationView)>::empty());
    }
    for i in 0..lines.len()
        invariant
            lines@.map_values(|line: Vec<char>| line@) == all,
            lines@.len() == all.len(),
            all == text_lines(text@),
            log_fold(all.take(i as int)) == Ok::<Seq<(u64, OperationView)>, Seq<char>>(
                entries@.map_values(|e: OperationLogEntry| entry_view(e)),
            ),
    {
        proof {
            assert(all.take(i + 1).drop_last() =~= all.take(i as int));
            assert(all.take(i + 1).last() == all[i as int]);
            assert(lines@[i as int]@ == lines@.map_values(|line: Vec<char>| line@)[i as int]);
        }
        match read_log_line(&lines[i]) {
            Ok(None) => {},
            Ok(Some(entry)) => {
                let ghost before = entries@;
                entries.push(entry);
                proof {
                    assert(entries@.map_values(|e: OperationLogEntry| entry_view(e)) =~= before.map_values(
                        |e: OperationLogEntry| entry_view(e),
                    ).push(entry_view(entry)));
                }
            },
            Err(e) => {
                proof {
                    lemma_log_fold_prefix_err(all, i + 1);
                }
                return Err(e);
            },
        }
    }
    proof {
        assert(all.take(lines@.len() as int) =~= all);
    }
    Ok(entries)
}

} // verus!

verus! {

proof fn lemma_split_limited_no_sep(s: Seq<char>, sep: char, limit: nat)
    requires
        !s.contains(sep),
    ensures
        split_limited(s, sep, limit) == seq![s],
    decreases s.len(),
{
    if s.len() > 0 {
        assert(!s.drop_last().contains(sep)) by {
            if s.drop_last().contains(sep) {
                let i = choose|i: int| 0 <= i < s.drop_last().len() && s.drop_last()[i] == sep;
                assert(s[i] == sep);
            }
        }
        lemma_split_limited_no_sep(s.drop_last(), sep, limit);
        assert(s[s.len() - 1] != sep);
        assert(s.drop_last().push(s.last()) =~= s);
    } else {
        assert(s =~= Seq::<char>::empty());
    }
}

/// Once there are `limit` pieces, the rest of the text lengthens the last one.
proof fn lemma_split_limited_full(a: Seq<char>, sep: char, limit: nat, b: Seq<char>)
    requires
        split_limited(a, sep, limit).len() == limit,
    ensures
        split_limited(a + b, sep, limit) == split_limited(a, sep, limit).update(
            limit - 1,
            split_limited(a, sep, limit).last() + b,
        ),
    decreases b.len(),
{
    let pa = split_limited(a, sep, limit);
    lemma_split_limited_nonempty(a, sep, limit);
    if b.len() == 0 {
        assert(a + b =~= a);
        assert(pa.last() + b =~= pa.last());
        assert(pa.update(limit - 1, pa.last() + b) =~= pa);
    } else {
        let b2 = b.drop_last();
        lemma_split_limited_full(a, sep, limit, b2);
        assert((a + b).drop_last() =~= a + b2);
        assert((a + b).last() == b.last());
        assert((pa.last() + b2).push(b.last()) =~= pa.last() + b);
        let prev = pa.update(limit - 1, pa.last() + b2);
        assert(prev.update(prev.len() - 1, prev.last().push(b.last())) =~= pa.update(limit - 1, pa.last() + b));
    }
}

/// Below the limit, a separator starts a new piece.
proof fn lemma_split_limited_sep(a: Seq<char>, sep: char, limit: nat)
    requires
        split_limited(a, sep, limit).len() < limit,
    ensures
        split_limited(a + seq![sep], sep, limit) == split_limited(a, sep, limit).push(Seq::empty()),
{
    assert((a + seq![sep]).drop_last() =~= a);
}

proof fn lemma_digits_plain(n: nat)
    ensures
        !decimal(n).contains('|'),
        !decimal(n).contains('\n'),
        decimal(n).len() >= 1,
        decimal(n).last() != '\r',
{
    crate::text::lemma_decimal(n, 0);
    let d = decimal(n);
    assert(crate::text::is_digit(d[d.len() - 1]));
    assert(!d.contains('|') && !d.contains('\n')) by {
        if d.contains('|') || d.contains('\n') {
            let i = choose|i: int| 0 <= i < d.len() && (d[i] == '|' || d[i] == '\n');
            assert(crate::text::is_digit(d[i]));
        }
    }
}

/// `first|second|third|rest` splits into four pieces, the last being `rest` whatever it holds.
proof fn lemma_split_four(first: Seq<char>, second: Seq<char>, third: Seq<char>, rest: Seq<char>)
    requires
        !first.contains('|'),
        !second.contains('|'),
        !third.contains('|'),
    ensures
        split_limited(first + seq!['|'] + second + seq!['|'] + third + seq!['|'] + rest, '|', 4) == seq![
            first,
            second,
            third,
            rest,
        ],
{
    lemma_split_limited_no_sep(first, '|', 4);
    let a1 = first + seq!['|'];
    lemma_split_limited_sep(first, '|', 4);
    assert(seq![first].push(Seq::<char>::empty()) =~= seq![first, Seq::<char>::empty()]);
    lemma_grow(a1, '|', 4, second);
    let a2 = a1 + second;
    assert(Seq::<char>::empty() + second =~= second);
    assert(split_limited(a2, '|', 4) =~= seq![first, second]);
    lemma_split_limited_sep(a2, '|', 4);
    let a3 = a2 + seq!['|'];
    lemma_grow(a3, '|', 4, third);
    let a4 = a3 + third;
    assert(split_limited(a3, '|', 4) =~= seq![first, second, Seq::<char>::empty()]);
    assert(Seq::<char>::empty() + third =~= third);
    assert(split_limited(a4, '|', 4) =~= seq![first, second, third]);
    lemma_split_limited_sep(a4, '|', 4);
    let a5 = a4 + seq!['|'];
    assert(split_limited(a5, '|', 4) =~= seq![first, second, third, Seq::<char>::empty()]);
    lemma_split_limited_full(a5, '|', 4, rest);
    assert(Seq::<char>::empty() + rest =~= rest);
    assert(a5 + rest =~= first + seq!['|'] + second + seq!['|'] + third + seq!['|'] + rest);
}

/// Text without separators lengthens the last piece.
proof fn lemma_grow(a: Seq<char>, sep: char, limit: nat, b: Seq<char>)
    requires
        !b.contains(sep),
    ensures
        split_limited(a + b, sep, limit) == split_limited(a, sep, limit).update(
            split_limited(a, sep, limit).len() - 1,
            split_limited(a, sep, limit).last() + b,
        ),
    decreases b.len(),
{
    lemma_split_limited_nonempty(a, sep, limit);
    let pa = split_limited(a, sep, limit);
    if b.len() == 0 {
        assert(a + b =~= a);
        assert(pa.last() + b =~= pa.last());
        assert(pa.update(pa.len() - 1, pa.last() + b) =~= pa);
    } else {
        let b2 = b.drop_last();
        assert(!b2.contains(sep)) by {
            if b2.contains(sep) {
                let i = choose|i: int| 0 <= i < b2.len() && b2[i] == sep;
                assert(b[i] == sep);
            }
        }
        lemma_grow(a, sep, limit, b2);
        assert((a + b).drop_last() =~= a + b2);
        assert((a + b).last() == b.last());
        assert(b[b.len() - 1] != sep);
        assert((pa.last() + b2).push(b.last()) =~= pa.last() + b);
        let prev = pa.update(pa.len() - 1, pa.last() + b2);
        assert(prev.update(prev.len() - 1, prev.last().push(b.last())) =~= pa.update(pa.len() - 1, pa.last() + b));
    }
}

} // verus!

verus! {

proof fn lemma_log_line(sequence: u64, op: OperationView)
    ensures
        log_line_entry(operation_line(sequence, op)) == Ok::<Option<(u64, OperationView)>, Seq<char>>(Some((sequence, op))),
{
    reveal_strlit("ADD_USER|");
    reveal_strlit("ADD_FOLLOW|");
    reveal_strlit("REMOVE_FOLLOW|");
    reveal_strlit("ADD_USER");
    reveal_strlit("ADD_FOLLOW");
    reveal_strlit("REMOVE_FOLLOW");
    let line = operation_line(sequence, op);
    let ds = decimal(sequence as nat);
    lemma_digits_plain(sequence as nat);
    crate::text::lemma_parse_decimal(sequence as nat, u64::MAX as nat);
    match op {
        OperationView::AddUser(id, name) => {
            let kind = "ADD_USER"@;
            assert("ADD_USER|"@ =~= kind + seq!['|']);
            lemma_digits_plain(id as nat);
            crate::text::lemma_parse_decimal(id as nat, u64::MAX as nat);
            assert(!kind.contains('|')) by {
                if kind.contains('|') {
                    let i = choose|i: int| 0 <= i < kind.len() && kind[i] == '|';
                }
            }
            assert(line =~= ds + seq!['|'] + kind + seq!['|'] + decimal(id as nat) + seq!['|'] + name);
            lemma_split_four(ds, kind, decimal(id as nat), name);
        },
        OperationView::AddFollow(source, target) => {
            let kind = "ADD_FOLLOW"@;
            assert("ADD_FOLLOW|"@ =~= kind + seq!['|']);
            lemma_digits_plain(source as nat);
            lemma_digits_plain(target as nat);
            crate::text::lemma_parse_decimal(source as nat, u64::MAX as nat);
            crate::text::lemma_parse_decimal(target as nat, u64::MAX as nat);
            assert(!kind.contains('|')) by {
                if kind.contains('|') {
                    let i = choose|i: int| 0 <= i < kind.len() && kind[i] == '|';
                }
            }
            assert(line =~= ds + seq!['|'] + kind + seq!['|'] + decimal(source as nat) + seq!['|'] + decimal(target as nat));
            lemma_split_four(ds, kind, decimal(source as nat), decimal(target as nat));
            assert(kind != "ADD_USER"@) by {
                assert(kind.len() != "ADD_USER"@.len());
            }
        },
        OperationView::RemoveFollow(source, target) => {
            let kind = "REMOVE_FOLLOW"@;
            assert("REMOVE_FOLLOW|"@ =~= kind + seq!['|']);
            lemma_digits_plain(source as nat);
            lemma_digits_plain(target as nat);
            crate::text::lemma_parse_decimal(source as nat, u64::MAX as nat);
            crate::text::lemma_parse_decimal(target as nat, u64::MAX as nat);
            assert(!kind.contains('|')) by {
                if kind.contains('|') {
                    let i = choose|i: int| 0 <= i < kind.len() && kind[i] == '|';
                }
            }
            assert(line =~= ds + seq!['|'] + kind + seq!['|'] + decimal(source as nat) + seq!['|'] + decimal(target as nat));
            lemma_split_four(ds, kind, decimal(source as nat), decimal(target as nat));
            assert(kind != "ADD_USER"@) by {
                assert(kind.len() != "ADD_USER"@.len());
            }
            assert(kind != "ADD_FOLLOW"@) by {
                assert(kind.len() != "ADD_FOLLOW"@.len());
            }
        },
    }
}

/// The lines of a log holding `entries`, in order.
pub open spec fn log_lines(entries: Seq<(u64, OperationView)>) -> Seq<Seq<char>> {
    entries.map_values(|e: (u64, OperationView)| operation_line(e.0, e.1))
}

/// Whether a name can be written on a log line and read back: it holds no newline and does
/// not end in a carriage return.
pub open spec fn loggable(op: OperationView) -> bool {
    op matches OperationView::AddUser(_, name) ==> !name.contains('\n') && (name.len() > 0 ==> name.last() != '\r')
}

proof fn lemma_log_fold_lines(entries: Seq<(u64, OperationView)>)
    ensures
        log_fold(log_lines(entries)) == Ok::<Seq<(u64, OperationView)>, Seq<char>>(entries),
    decreases entries.len(),
{
    if entries.len() > 0 {
        let init = entries.drop_last();
        lemma_log_fold_lines(init);
        assert(log_lines(entries).drop_last() =~= log_lines(init));
        let e = entries.last();
        lemma_log_line(e.0, e.1);
        assert(init.push(e) =~= entries);
    } else {
        assert(log_lines(entries) =~= Seq::<Seq<char>>::empty());
        assert(entries =~= Seq::<(u64, OperationView)>::empty());
    }
}

/// A log written one line per operation reads back as those operations, in order, whenever
/// no user name in it holds a newline or ends in a carriage return.
pub proof fn lemma_operation_log_round_trip(entries: Seq<(u64, OperationView)>)
    requires
        forall|k: int| 0 <= k < entries.len() ==> loggable(#[trigger] entries[k].1),
    ensures
        parse_operation_log_text(with_newlines(log_lines(entries))) == Ok::<Seq<(u64, OperationView)>, Seq<char>>(entries),
{
    let lines = log_lines(entries);
    assert forall|k: int| 0 <= k < lines.len() implies !(#[trigger] lines[k]).contains('\n') && crate::text_format::strip_cr(
        lines[k],
    ) == lines[k] by {
        reveal_strlit("ADD_USER|");
        reveal_strlit("ADD_FOLLOW|");
        reveal_strlit("REMOVE_FOLLOW|");
        let e = entries[k];
        assert(loggable(entries[k].1));
        let line = lines[k];
        assert(line == operation_line(e.0, e.1));
        let ds = decimal(e.0 as nat);
        lemma_digits_plain(e.0 as nat);
        let tail = line.skip(ds.len() + 1 as int);
        assert(line =~= ds + seq!['|'] + tail);
        let (head, last) = match e.1 {
            OperationView::AddUser(id, name) => ("ADD_USER|"@ + decimal(id as nat) + seq!['|'], name),
            OperationView::AddFollow(s, t) => ("ADD_FOLLOW|"@ + decimal(s as nat) + seq!['|'], decimal(t as nat)),
            OperationView::RemoveFollow(s, t) => ("REMOVE_FOLLOW|"@ + decimal(s as nat) + seq!['|'], decimal(t as nat)),
        };
        let middle = match e.1 {
            OperationView::AddUser(id, _) => decimal(id as nat),
            OperationView::AddFollow(s, _) => decimal(s as nat),
            OperationView::RemoveFollow(s, _) => decimal(s as nat),
        };
        match e.1 {
            OperationView::AddUser(id, _) => lemma_digits_plain(id as nat),
            OperationView::AddFollow(s, t) => {
                lemma_digits_plain(s as nat);
                lemma_digits_plain(t as nat);
            },
            OperationView::RemoveFollow(s, t) => {
                lemma_digits_plain(s as nat);
                lemma_digits_plain(t as nat);
            },
        }
        assert(tail =~= head + last);
        assert(!last.contains('\n'));
        assert(!head.contains('\n')) by {
            if head.contains('\n') {
                let i = choose|i: int| 0 <= i < head.len() && head[i] == '\n';
                let kind_len = head.len() - middle.len() - 1;
                if i >= kind_len && i < head.len() - 1 {
                    assert(middle[i - kind_len] == '\n');
                }
            }
        }
        if line.contains('\n') {
            let i = choose|i: int| 0 <= i < line.len() && line[i] == '\n';
            if i < ds.len() {
                assert(ds[i] == '\n');
            } else if i > ds.len() {
                let j = i - ds.len() - 1;
                if j < head.len() {
                    assert(head[j] == '\n');
                } else {
                    assert(last[j - head.len()] == '\n');
                }
            }
        }
        if last.len() > 0 {
            assert(line.last() == last.last());
        } else {
            assert(line.last() == '|');
        }
    }
    crate::text_format::lemma_text_lines_round_trip(lines);
    lemma_log_fold_lines(entries);
}

} // verus!
