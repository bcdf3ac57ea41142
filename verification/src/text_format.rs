use vstd::prelude::*;
use crate::error::GraphError;
use crate::persistence::{Snapshot, SnapshotUser, SnapshotEdge};
use crate::placement_text::{has_prefix, io_error, issue_string};
use crate::text::{
    IntIssue, decimal, parse_uint, issue_text, split_on, push_char, push_decimal, push_str, chars_of, starts_with,
    same_chars, chars_from, split_chars, parse_uint_chars, string_of,
};

verus! {

/// `lines`, each followed by a newline.
pub open spec fn with_newlines(lines: Seq<Seq<char>>) -> Seq<char>
    decreases lines.len(),
{
    if lines.len() == 0 {
        Seq::empty()
    } else {
        with_newlines(lines.drop_last()) + lines.last() + seq!['\n']
    }
}

/// `line` without a final carriage return.
pub open spec fn strip_cr(line: Seq<char>) -> Seq<char> {
    if line.len() > 0 && line.last() == '\r' {
        line.drop_last()
    } else {
        line
    }
}

/// The lines of `text` as `BufRead::lines` reads them: split at newlines, without an empty
/// piece after a final newline; a line ended by a newline loses a carriage return before it.
pub open spec fn text_lines(text: Seq<char>) -> Seq<Seq<char>> {
    let pieces = split_on(text, '\n');
    let ended = pieces.drop_last().map_values(|line: Seq<char>| strip_cr(line));
    if pieces.last().len() == 0 {
        ended
    } else {
        ended.push(pieces.last())
    }
}

fn strip_cr_chars(line: &Vec<char>) -> (stripped: Vec<char>)
    ensures
        stripped@ == strip_cr(line@),
{
    let mut stripped = line.clone();
    proof {
        assert(stripped@ == line@);
    }
    if stripped.len() > 0 && stripped[stripped.len() - 1] == '\r' {
        stripped.pop();
    }
    stripped
}

/// The lines of `chars`, as `text_lines` gives them.
pub fn lines_of(chars: &[char]) -> (lines: Vec<Vec<char>>)
    ensures
        lines@.map_values(|line: Vec<char>| line@) == text_lines(chars@),
{
    let pieces = split_chars(chars, '\n');
    let ghost all = split_on(chars@, '\n');
    proof {
        crate::text::lemma_split_on_nonempty(chars@, '\n');
    }
    let n = pieces.len();
    let mut lines: Vec<Vec<char>> = Vec::new();
    for i in 0..n - 1
        invariant
            n == pieces@.len(),
            n == all.len(),
            n >= 1,
            forall|k: int| 0 <= k < n ==> (#[trigger] pieces@[k])@ == all[k],
            lines@.map_values(|line: Vec<char>| line@) == all.take(i as int).map_values(|line: Seq<char>| strip_cr(line)),
    {
        let line = strip_cr_chars(&pieces[i]);
        let ghost before = lines@;
        lines.push(line);
        proof {
            assert(lines@ == before.push(line));
            assert(before.map_values(|line: Vec<char>| line@).len() == i);
            assert(all.take(i + 1) =~= all.take(i as int).push(all[i as int]));
            assert forall|k: int| 0 <= k < i implies (#[trigger] lines@[k])@ == strip_cr(all[k]) by {
                assert(before[k]@ == before.map_values(|line: Vec<char>| line@)[k]);
                assert(all.take(i as int)[k] == all[k]);
            }
            assert(lines@.map_values(|line: Vec<char>| line@) =~= all.take(i + 1).map_values(|line: Seq<char>| strip_cr(line)));
        }
    }
    proof {
        assert(all.take(n - 1) =~= all.drop_last());
    }
    if pieces[n - 1].len() > 0 {
        let last = pieces[n - 1].clone();
        let ghost before = lines@;
        lines.push(last);
        proof {
            assert(last@ == all.last());
            assert(lines@ == before.push(last));
            assert(lines@.map_values(|line: Vec<char>| line@) =~= all.drop_last().map_values(|line: Seq<char>| strip_cr(line)).push(all.last()));
        }
    }
    lines
}

pub open spec fn user_line(user: (u64, Seq<char>, usize)) -> Seq<char> {
    decimal(user.0 as nat) + seq!['|'] + user.1 + seq!['|'] + decimal(user.2 as nat)
}

pub open spec fn edge_line(edge: (u64, u64, usize)) -> Seq<char> {
    decimal(edge.0 as nat) + seq!['|'] + decimal(edge.1 as nat) + seq!['|'] + decimal(edge.2 as nat)
}

/// A snapshot as plain values.
pub struct SnapshotView {
    pub timestamp: u64,
    pub shard_count: usize,
    pub placement_info: Seq<char>,
    pub users: Seq<(u64, Seq<char>, usize)>,
    pub edges: Seq<(u64, u64, usize)>,
}

pub open spec fn snapshot_view(s: Snapshot) -> SnapshotView {
    SnapshotView {
        timestamp: s.timestamp,
        shard_count: s.shard_count,
        placement_info: s.placement_info@,
        users: crate::persistence::user_views(s.users@),
        edges: crate::persistence::edge_views(s.edges@),
    }
}

/// The lines of a saved snapshot.
pub open spec fn snapshot_lines(s: SnapshotView) -> Seq<Seq<char>> {
    seq!["SNAPSHOT v2"@, "timestamp:"@ + decimal(s.timestamp as nat), "shard_count:"@ + decimal(s.shard_count as nat),
        "placement:"@ + s.placement_info, "USERS"@] + s.users.map_values(|u: (u64, Seq<char>, usize)| user_line(u))
        + seq!["EDGES"@] + s.edges.map_values(|e: (u64, u64, usize)| edge_line(e))
}

/// Which list the lines being read belong to.
#[derive(Clone, Copy, PartialEq, Eq, Structural)]
pub enum Section {
    Preamble,
    Users,
    Edges,
}

/// What has been read of a snapshot so far.
pub struct SnapshotReading {
    pub snapshot: SnapshotView,
    pub section: Section,
}

pub open spec fn initial_reading() -> SnapshotReading {
    SnapshotReading {
        snapshot: SnapshotView {
            timestamp: 0,
            shard_count: 0,
            placement_info: "Hash"@,
            users: Seq::empty(),
            edges: Seq::empty(),
        },
        section: Section::Preamble,
    }
}

/// The number in `text`, or the message of its error behind `what`.
pub open spec fn read_number(text: Seq<char>, max: nat, what: Seq<char>) -> Result<nat, Seq<char>> {
    match parse_uint(text, max) {
        Ok(v) => Ok(v),
        Err(issue) => Err(what + issue_text(issue)),
    }
}

/// Reads one line after the header.
pub open spec fn snapshot_step(r: SnapshotReading, line: Seq<char>) -> Result<SnapshotReading, Seq<char>> {
    let s = r.snapshot;
    if has_prefix(line, "timestamp:"@) {
        match read_number(line.skip("timestamp:"@.len() as int), u64::MAX as nat, "Invalid timestamp: "@) {
            Ok(v) => Ok(SnapshotReading { snapshot: SnapshotView { timestamp: v as u64, ..s }, ..r }),
            Err(m) => Err(m),
        }
    } else if has_prefix(line, "shard_count:"@) {
        match read_number(line.skip("shard_count:"@.len() as int), usize::MAX as nat, "Invalid shard_count: "@) {
            Ok(v) => Ok(SnapshotReading { snapshot: SnapshotView { shard_count: v as usize, ..s }, ..r }),
            Err(m) => Err(m),
        }
    } else if has_prefix(line, "placement:"@) {
        Ok(SnapshotReading { snapshot: SnapshotView { placement_info: line.skip("placement:"@.len() as int), ..s }, ..r })
    } else if line == "USERS"@ {
        Ok(SnapshotReading { section: Section::Users, ..r })
    } else if line == "EDGES"@ {
        Ok(SnapshotReading { section: Section::Edges, ..r })
    } else if r.section is Users && line.len() > 0 {
        let parts = split_on(line, '|');
        if parts.len() >= 3 {
            match read_number(parts[0], u64::MAX as nat, "Invalid user id: "@) {
                Err(m) => Err(m),
                Ok(id) => match read_number(parts[2], usize::MAX as nat, "Invalid shard_id: "@) {
                    Err(m) => Err(m),
                    Ok(shard) => Ok(
                        SnapshotReading {
                            snapshot: SnapshotView { users: s.users.push((id as u64, parts[1], shard as usize)), ..s },
                            ..r
                        },
                    ),
                },
            }
        } else {
            Ok(r)
        }
    } else if r.section is Edges && line.len() > 0 {
        let parts = split_on(line, '|');
        if parts.len() >= 3 {
            match read_number(parts[0], u64::MAX as nat, "Invalid source: "@) {
                Err(m) => Err(m),
                Ok(source) => match read_number(parts[1], u64::MAX as nat, "Invalid target: "@) {
                    Err(m) => Err(m),
                    Ok(target) => match read_number(parts[2], usize::MAX as nat, "Invalid source_shard: "@) {
                        Err(m) => Err(m),
                        Ok(shard) => Ok(
                            SnapshotReading {
                                snapshot: SnapshotView {
                                    edges: s.edges.push((source as u64, target as u64, shard as usize)),
                                    ..s
                                },
                                ..r
                            },
                        ),
                    },
                },
            }
        } else {
            Ok(r)
        }
    } else {
        Ok(r)
    }
}

/// Reads `lines` in order; the first line that fails decides the error.
pub open spec fn snapshot_fold(r: SnapshotReading, lines: Seq<Seq<char>>) -> Result<SnapshotReading, Seq<char>>
    decreases lines.len(),
{
    if lines.len() == 0 {
        Ok(r)
    } else {
        match snapshot_fold(r, lines.drop_last()) {
            Err(m) => Err(m),
            Ok(prev) => snapshot_step(prev, lines.last()),
        }
    }
}

/// What `load_snapshot` reads from the text of a snapshot file: a header line, then the
/// fields and the user and edge lists.
pub open spec fn parse_snapshot_text(text: Seq<char>) -> Result<SnapshotView, Seq<char>> {
    let lines = text_lines(text);
    if lines.len() == 0 {
        Err("Missing snapshot header"@)
    } else {
        match snapshot_fold(initial_reading(), lines.drop_first()) {
            Ok(r) => Ok(r.snapshot),
            Err(m) => Err(m),
        }
    }
}

} // verus!

verus! {

pub proof fn lemma_with_newlines_push(lines: Seq<Seq<char>>, line: Seq<char>)
    ensures
        with_newlines(lines.push(line)) == with_newlines(lines) + line + seq!['\n'],
{
    assert(lines.push(line).drop_last() =~= lines);
}

fn user_text(user: &SnapshotUser) -> (text: String)
    ensures
        text@ == user_line((user.id, user.name@, user.shard_id)),
{
    let mut text = String::new();
    push_decimal(&mut text, user.id);
    push_char(&mut text, '|');
    push_str(&mut text, user.name.as_str());
    push_char(&mut text, '|');
    push_decimal(&mut text, user.shard_id as u64);
    text
}

fn edge_text(edge: &SnapshotEdge) -> (text: String)
    ensures
        text@ == edge_line((edge.source, edge.target, edge.source_shard)),
{
    let mut text = String::new();
    push_decimal(&mut text, edge.source);
    push_char(&mut text, '|');
    push_decimal(&mut text, edge.target);
    push_char(&mut text, '|');
    push_decimal(&mut text, edge.source_shard as u64);
    text
}

/// The text of a snapshot file: a header line, the timestamp, the shard count and the
/// placement, then the users and the edges, one per line, each field after a `|`.
pub fn format_snapshot(snapshot: &Snapshot) -> (text: String)
    ensures
        text@ == with_newlines(snapshot_lines(snapshot_view(*snapshot))),
{
    let ghost view = snapshot_view(*snapshot);
    let mut text = String::new();
    let mut line = String::from_str("SNAPSHOT v2");
    push_str(&mut text, line.as_str());
    push_char(&mut text, '\n');
    proof {
        lemma_with_newlines_push(Seq::empty(), "SNAPSHOT v2"@);
        assert(Seq::<Seq<char>>::empty().push("SNAPSHOT v2"@) =~= seq!["SNAPSHOT v2"@]);
    }
    line = String::from_str("timestamp:");
    push_decimal(&mut line, snapshot.timestamp);
    push_str(&mut text, line.as_str());
    push_char(&mut text, '\n');
    proof {
        lemma_with_newlines_push(seq!["SNAPSHOT v2"@], line@);
        assert(seq!["SNAPSHOT v2"@].push(line@) =~= seq!["SNAPSHOT v2"@, line@]);
    }
    let ghost l1 = line@;
    line = String::from_str("shard_count:");
    push_decimal(&mut line, snapshot.shard_count as u64);
    push_str(&mut text, line.as_str());
    push_char(&mut text, '\n');
    proof {
        lemma_with_newlines_push(seq!["SNAPSHOT v2"@, l1], line@);
        assert(seq!["SNAPSHOT v2"@, l1].push(line@) =~= seq!["SNAPSHOT v2"@, l1, line@]);
    }
    let ghost l2 = line@;
    line = String::from_str("placement:");
    push_str(&mut line, snapshot.placement_info.as_str());
    push_str(&mut text, line.as_str());
    push_char(&mut text, '\n');
    proof {
        lemma_with_newlines_push(seq!["SNAPSHOT v2"@, l1, l2], line@);
        assert(seq!["SNAPSHOT v2"@, l1, l2].push(line@) =~= seq!["SNAPSHOT v2"@, l1, l2, line@]);
    }
    let ghost l3 = line@;
    line = String::from_str("USERS");
    push_str(&mut text, line.as_str());
    push_char(&mut text, '\n');
    let ghost header = seq!["SNAPSHOT v2"@, l1, l2, l3, "USERS"@];
    proof {
        lemma_with_newlines_push(seq!["SNAPSHOT v2"@, l1, l2, l3], line@);
        assert(seq!["SNAPSHOT v2"@, l1, l2, l3].push(line@) =~= header);
        assert(header.len() == 5);
        assert(header + view.users.take(0).map_values(|u: (u64, Seq<char>, usize)| user_line(u)) =~= header);
    }
    for i in 0..snapshot.users.len()
        invariant
            view == snapshot_view(*snapshot),
            text@ == with_newlines(header + view.users.take(i as int).map_values(|u: (u64, Seq<char>, usize)| user_line(u))),
    {
        let user_line_text = user_text(&snapshot.users[i]);
        push_str(&mut text, user_line_text.as_str());
        push_char(&mut text, '\n');
        proof {
            let before = header + view.users.take(i as int).map_values(|u: (u64, Seq<char>, usize)| user_line(u));
            lemma_with_newlines_push(before, user_line_text@);
            assert(view.users[i as int] == (snapshot.users@[i as int].id, snapshot.users@[i as int].name@, snapshot.users@[i as int].shard_id));
            assert(before.push(user_line_text@) =~= header + view.users.take(i + 1).map_values(|u: (u64, Seq<char>, usize)| user_line(u)));
        }
    }
    let ghost with_users = header + view.users.map_values(|u: (u64, Seq<char>, usize)| user_line(u));
    proof {
        assert(view.users.take(view.users.len() as int) =~= view.users);
    }
    line = String::from_str("EDGES");
    push_str(&mut text, line.as_str());
    push_char(&mut text, '\n');
    proof {
        lemma_with_newlines_push(with_users, line@);
        assert(with_users.push("EDGES"@) + view.edges.take(0).map_values(|e: (u64, u64, usize)| edge_line(e)) =~= with_users.push("EDGES"@));
    }
    for i in 0..snapshot.edges.len()
        invariant
            view == snapshot_view(*snapshot),
            text@ == with_newlines(with_users.push("EDGES"@) + view.edges.take(i as int).map_values(|e: (u64, u64, usize)| edge_line(e))),
    {
        let edge_line_text = edge_text(&snapshot.edges[i]);
        push_str(&mut text, edge_line_text.as_str());
        push_char(&mut text, '\n');
        proof {
            let before = with_users.push("EDGES"@) + view.edges.take(i as int).map_values(|e: (u64, u64, usize)| edge_line(e));
            lemma_with_newlines_push(before, edge_line_text@);
            assert(view.edges[i as int] == (snapshot.edges@[i as int].source, snapshot.edges@[i as int].target, snapshot.edges@[i as int].source_shard));
            assert(before.push(edge_line_text@) =~= with_users.push("EDGES"@) + view.edges.take(i + 1).map_values(|e: (u64, u64, usize)| edge_line(e)));
        }
    }
    proof {
        assert(view.edges.take(view.edges.len() as int) =~= view.edges);
        assert(with_users.push("EDGES"@) + view.edges.map_values(|e: (u64, u64, usize)| edge_line(e)) =~= snapshot_lines(view));
    }
    text
}

} // verus!

verus! {

proof fn lemma_fold_prefix_err(r: SnapshotReading, lines: Seq<Seq<char>>, k: int)
    requires
        0 <= k <= lines.len(),
        snapshot_fold(r, lines.take(k)) is Err,
    ensures
        snapshot_fold(r, lines) == snapshot_fold(r, lines.take(k)),
    decreases lines.len() - k,
{
    if k < lines.len() {
        assert(lines.take(k + 1).drop_last() =~= lines.take(k));
        lemma_fold_prefix_err(r, lines, k + 1);
    } else {
        assert(lines.take(k) =~= lines);
    }
}

/// Reads a number of at most `max` from `text`; the error message is `what` followed by
/// what `str::parse` reports.
pub(crate) fn read_number_chars(text: &[char], max: u64, what: &str) -> (result: Result<u64, GraphError>)
    ensures
        match read_number(text@, max as nat, what@) {
            Ok(v) => result matches Ok(x) && x == v,
            Err(m) => result matches Err(GraphError::IoError(e)) && e@ == m,
        },
{
    match parse_uint_chars(text, max) {
        Ok(v) => Ok(v),
        Err(issue) => Err(io_error(what, issue_string(issue))),
    }
}

struct SnapshotReader {
    timestamp: u64,
    shard_count: usize,
    placement: Vec<char>,
    users: Vec<SnapshotUser>,
    edges: Vec<SnapshotEdge>,
    section: Section,
}

spec fn reader_view(r: SnapshotReader) -> SnapshotReading {
    SnapshotReading {
        snapshot: SnapshotView {
            timestamp: r.timestamp,
            shard_count: r.shard_count,
            placement_info: r.placement@,
            users: crate::persistence::user_views(r.users@),
            edges: crate::persistence::edge_views(r.edges@),
        },
        section: r.section,
    }
}

fn read_snapshot_line(reader: &mut SnapshotReader, line: &Vec<char>) -> (result: Result<(), GraphError>)
    ensures
        match snapshot_step(reader_view(*old(reader)), line@) {
            Ok(next) => result is Ok && reader_view(*final(reader)) == next,
            Err(m) => result matches Err(GraphError::IoError(e)) && e@ == m,
        },
{
    let ghost before = reader_view(*reader);
    let timestamp_key = chars_of("timestamp:");
    let shard_count_key = chars_of("shard_count:");
    let placement_key = chars_of("placement:");
    let users_key = chars_of("USERS");
    let edges_key = chars_of("EDGES");
    if starts_with(line, &timestamp_key) {
        let rest = chars_from(line, timestamp_key.len());
        let v = read_number_chars(&rest, u64::MAX, "Invalid timestamp: ")?;
        reader.timestamp = v;
        return Ok(());
    }
    if starts_with(line, &shard_count_key) {
        let rest = chars_from(line, shard_count_key.len());
        let v = read_number_chars(&rest, usize::MAX as u64, "Invalid shard_count: ")?;
        reader.shard_count = v as usize;
        return Ok(());
    }
    if starts_with(line, &placement_key) {
        reader.placement = chars_from(line, placement_key.len());
        return Ok(());
    }
    if same_chars(line, &users_key) {
        reader.section = Section::Users;
        return Ok(());
    }
    if same_chars(line, &edges_key) {
        reader.section = Section::Edges;
        return Ok(());
    }
    if line.len() == 0 {
        return Ok(());
    }
    match reader.section {
        Section::Users => {
            let parts = split_chars(line, '|');
            if parts.len() >= 3 {
                let id = read_number_chars(&parts[0], u64::MAX, "Invalid user id: ")?;
                let shard_id = read_number_chars(&parts[2], usize::MAX as u64, "Invalid shard_id: ")?;
                let name = string_of(&parts[1]);
                let ghost old_users = reader.users@;
                reader.users.push(SnapshotUser { id, name, shard_id: shard_id as usize });
                proof {
                    assert(crate::persistence::user_views(reader.users@) =~= crate::persistence::user_views(old_users).push(
                        (id, parts@[1]@, shard_id as usize),
                    ));
                }
            }
            Ok(())
        },
        Section::Edges => {
            let parts = split_chars(line, '|');
            if parts.len() >= 3 {
                let source = read_number_chars(&parts[0], u64::MAX, "Invalid source: ")?;
                let target = read_number_chars(&parts[1], u64::MAX, "Invalid target: ")?;
                let source_shard = read_number_chars(&parts[2], usize::MAX as u64, "Invalid source_shard: ")?;
                let ghost old_edges = reader.edges@;
                reader.edges.push(SnapshotEdge { source, target, source_shard: source_shard as usize });
                proof {
                    assert(crate::persistence::edge_views(reader.edges@) =~= crate::persistence::edge_views(old_edges).push(
                        (source, target, source_shard as usize),
                    ));
                }
            }
            Ok(())
        },
        Section::Preamble => Ok(()),
    }
}

/// Reads the text `format_snapshot` writes. A line that starts with `timestamp:`,
/// `shard_count:` or `placement:` sets that field, `USERS` and `EDGES` start their lists,
/// and a list line with at least three `|`-separated fields adds an entry; other lines are
/// skipped. A number that does not parse is an `IoError` naming the field; text without
/// a first line is the `IoError` "Missing snapshot header".
pub fn parse_snapshot(text: &str) -> (result: Result<Snapshot, GraphError>)
    ensures
        match parse_snapshot_text(text@) {
            Ok(v) => result matches Ok(s) && snapshot_view(s) == v,
            Err(m) => result matches Err(GraphError::IoError(e)) && e@ == m,
        },
{
    let chars = chars_of(text);
    let lines = lines_of(&chars);
    let ghost all = text_lines(text@);
    if lines.len() == 0 {
        return Err(GraphError::IoError(String::from_str("Missing snapshot header")));
    }
    let ghost rest = all.drop_first();
    let mut reader = SnapshotReader {
        timestamp: 0,
        shard_count: 0,
        placement: chars_of("Hash"),
        users: Vec::new(),
        edges: Vec::new(),
        section: Section::Preamble,
    };
    proof {
        assert(lines@.map_values(|line: Vec<char>| line@).len() == lines@.len());
        assert(rest.take(0) =~= Seq::<Seq<char>>::empty());
        assert(crate::persistence::user_views(reader.users@) =~= Seq::<(u64, Seq<char>, usize)>::empty());
        assert(crate::persistence::edge_views(reader.edges@) =~= Seq::<(u64, u64, usize)>::empty());
        assert(reader_view(reader) == initial_reading());
    }
    for i in 1..lines.len()
        invariant
            lines@.map_values(|line: Vec<char>| line@) == all,
            lines@.len() == all.len(),
            all.len() >= 1,
            rest == all.drop_first(),
            all == text_lines(text@),
            snapshot_fold(initial_reading(), rest.take(i - 1)) == Ok::<SnapshotReading, Seq<char>>(reader_view(reader)),
    {
        let ghost prev = reader_view(reader);
        proof {
            assert(rest.take(i as int).drop_last() =~= rest.take(i - 1));
            assert(rest.take(i as int).last() == all[i as int]);
            assert(lines@[i as int]@ == lines@.map_values(|line: Vec<char>| line@)[i as int]);
        }
        match read_snapshot_line(&mut reader, &lines[i]) {
            Ok(()) => {},
            Err(e) => {
                proof {
                    lemma_fold_prefix_err(initial_reading(), rest, i as int);
                    assert(rest.take(rest.len() as int) =~= rest);
                }
                return Err(e);
            },
        }
    }
    proof {
        assert(rest.take(lines@.len() - 1) =~= rest);
    }
    let placement_info = string_of(&reader.placement);
    let snapshot = Snapshot {
        timestamp: reader.timestamp,
        shard_count: reader.shard_count,
        placement_info,
        users: reader.users,
        edges: reader.edges,
    };
    proof {
        assert(snapshot_view(snapshot) =~~= reader_view(reader).snapshot);
    }
    Ok(snapshot)
}

} // verus!

verus! {

/// Text without `sep` added at the end of `a` lengthens the last piece.
proof fn lemma_split_extend(a: Seq<char>, sep: char, b: Seq<char>)
    requires
        !b.contains(sep),
    ensures
        split_on(a + b, sep) == split_on(a, sep).update(
            split_on(a, sep).len() - 1,
            split_on(a, sep).last() + b,
        ),
    decreases b.len(),
{
    crate::text::lemma_split_on_nonempty(a, sep);
    let pa = split_on(a, sep);
    if b.len() == 0 {
        assert(a + b =~= a);
        assert(pa.last() + b =~= pa.last());
        assert(pa.update(pa.len() - 1, pa.last() + b) =~= pa);
    } else {
        let b2 = b.drop_last();
        assert(!b2.contains(sep)) by {
            if b2.contains(sep) {
                let i = choose|i: int| 0 <= i < b2.len() && b2[i] == sep;
                assert(b[i] == sep);
            }
        }
        lemma_split_extend(a, sep, b2);
        assert((a + b).drop_last() =~= a + b2);
        assert((a + b).last() == b.last());
        assert(b[b.len() - 1] != sep);
        assert((pa.last() + b2).push(b.last()) =~= pa.last() + b);
        let prev = pa.update(pa.len() - 1, pa.last() + b2);
        assert(prev.update(prev.len() - 1, prev.last().push(b.last())) =~= pa.update(pa.len() - 1, pa.last() + b));
    }
}

proof fn lemma_split_lines(lines: Seq<Seq<char>>)
    requires
        forall|k: int| 0 <= k < lines.len() ==> !(#[trigger] lines[k]).contains('\n'),
    ensures
        split_on(with_newlines(lines), '\n') == lines.push(Seq::empty()),
    decreases lines.len(),
{
    if lines.len() == 0 {
        assert(with_newlines(lines) =~= Seq::<char>::empty());
        assert(lines.push(Seq::empty()) =~= seq![Seq::<char>::empty()]);
    } else {
        let init = lines.drop_last();
        let l = lines.last();
        assert forall|k: int| 0 <= k < init.len() implies !(#[trigger] init[k]).contains('\n') by {
            assert(init[k] == lines[k]);
        }
        assert(!l.contains('\n')) by {
            assert(lines[lines.len() - 1] == l);
        }
        lemma_split_lines(init);
        let w = with_newlines(init);
        lemma_split_extend(w, '\n', l);
        let pw = init.push(Seq::<char>::empty());
        assert(Seq::<char>::empty() + l =~= l);
        assert(pw.update(pw.len() - 1, pw.last() + l) =~= lines);
        let whole = with_newlines(lines);
        assert(whole == w + l + seq!['\n']);
        assert(whole.drop_last() =~= w + l);
        assert(whole.last() == '\n');
    }
}

/// Lines without newlines, none ending in a carriage return, read back as themselves.
pub proof fn lemma_text_lines_round_trip(lines: Seq<Seq<char>>)
    requires
        forall|k: int| 0 <= k < lines.len() ==> !(#[trigger] lines[k]).contains('\n'),
        forall|k: int| 0 <= k < lines.len() ==> strip_cr(#[trigger] lines[k]) == lines[k],
    ensures
        text_lines(with_newlines(lines)) == lines,
{
    lemma_split_lines(lines);
    let pieces = lines.push(Seq::<char>::empty());
    assert(pieces.drop_last() =~= lines);
    assert(lines.map_values(|line: Seq<char>| strip_cr(line)) =~= lines);
}

/// Reading `a` then `b` is reading `a + b`.
proof fn lemma_fold_append(r: SnapshotReading, a: Seq<Seq<char>>, b: Seq<Seq<char>>)
    ensures
        snapshot_fold(r, a + b) == (match snapshot_fold(r, a) {
            Ok(mid) => snapshot_fold(mid, b),
            Err(m) => Err(m),
        }),
    decreases b.len(),
{
    if b.len() == 0 {
        assert(a + b =~= a);
    } else {
        lemma_fold_append(r, a, b.drop_last());
        assert((a + b).drop_last() =~= a + b.drop_last());
        assert((a + b).last() == b.last());
    }
}

proof fn lemma_digits_start(n: nat)
    ensures
        decimal(n).len() >= 1,
        '0' <= decimal(n)[0] <= '9',
        !decimal(n).contains('|'),
        !decimal(n).contains('\n'),
        !decimal(n).contains('\r'),
        decimal(n).last() != '\r',
{
    crate::text::lemma_decimal(n, 0);
    let d = decimal(n);
    assert(crate::text::is_digit(d[0]));
    assert(crate::text::is_digit(d[d.len() - 1]));
    assert(!d.contains('|') && !d.contains('\n') && !d.contains('\r')) by {
        if d.contains('|') || d.contains('\n') || d.contains('\r') {
            let i = choose|i: int| 0 <= i < d.len() && (d[i] == '|' || d[i] == '\n' || d[i] == '\r');
            assert(crate::text::is_digit(d[i]));
        }
    }
}

/// A line that starts with a digit is none of the keyword lines.
proof fn lemma_not_keyword(line: Seq<char>)
    requires
        line.len() >= 1,
        '0' <= line[0] <= '9',
    ensures
        !has_prefix(line, "timestamp:"@),
        !has_prefix(line, "shard_count:"@),
        !has_prefix(line, "placement:"@),
        line != "USERS"@,
        line != "EDGES"@,
{
    reveal_strlit("timestamp:");
    reveal_strlit("shard_count:");
    reveal_strlit("placement:");
    reveal_strlit("USERS");
    reveal_strlit("EDGES");
    if has_prefix(line, "timestamp:"@) {
        assert(line.take(10)[0] == 't');
    }
    if has_prefix(line, "shard_count:"@) {
        assert(line.take(12)[0] == 's');
    }
    if has_prefix(line, "placement:"@) {
        assert(line.take(10)[0] == 'p');
    }
}

/// `first|second|third` splits into its three fields when none holds a `|`.
proof fn lemma_split_three(a: Seq<char>, b: Seq<char>, c: Seq<char>)
    requires
        !a.contains('|'),
        !b.contains('|'),
        !c.contains('|'),
    ensures
        split_on(a + seq!['|'] + b + seq!['|'] + c, '|') == seq![a, b, c],
{
    crate::text::lemma_split_no_sep(a, '|');
    crate::text::lemma_split_append(a, '|', b);
    crate::text::lemma_split_append(a + seq!['|'] + b, '|', c);
    assert(seq![a].push(b).push(c) =~= seq![a, b, c]);
}

proof fn lemma_read_users(r: SnapshotReading, users: Seq<(u64, Seq<char>, usize)>)
    requires
        r.section is Users,
        forall|k: int| 0 <= k < users.len() ==> !(#[trigger] users[k]).1.contains('|'),
    ensures
        snapshot_fold(r, users.map_values(|u: (u64, Seq<char>, usize)| user_line(u))) == Ok::<SnapshotReading, Seq<char>>(
            SnapshotReading { snapshot: SnapshotView { users: r.snapshot.users + users, ..r.snapshot }, ..r },
        ),
    decreases users.len(),
{
    let lines = users.map_values(|u: (u64, Seq<char>, usize)| user_line(u));
    if users.len() == 0 {
        assert(lines =~= Seq::<Seq<char>>::empty());
        assert(r.snapshot.users + users =~= r.snapshot.users);
    } else {
        let init = users.drop_last();
        let u = users.last();
        assert forall|k: int| 0 <= k < init.len() implies !(#[trigger] init[k]).1.contains('|') by {
            assert(init[k] == users[k]);
        }
        assert(!u.1.contains('|')) by {
            assert(users[users.len() - 1] == u);
        }
        lemma_read_users(r, init);
        assert(lines.drop_last() =~= init.map_values(|u: (u64, Seq<char>, usize)| user_line(u)));
        let mid = SnapshotReading { snapshot: SnapshotView { users: r.snapshot.users + init, ..r.snapshot }, ..r };
        let line = user_line(u);
        assert(lines.last() == line);
        lemma_digits_start(u.0 as nat);
        lemma_digits_start(u.2 as nat);
        assert(line[0] == decimal(u.0 as nat)[0]);
        lemma_not_keyword(line);
        lemma_split_three(decimal(u.0 as nat), u.1, decimal(u.2 as nat));
        crate::text::lemma_parse_decimal(u.0 as nat, u64::MAX as nat);
        crate::text::lemma_parse_decimal(u.2 as nat, usize::MAX as nat);
        assert(r.snapshot.users + users =~= (r.snapshot.users + init).push(u));
    }
}

proof fn lemma_read_edges(r: SnapshotReading, edges: Seq<(u64, u64, usize)>)
    requires
        r.section is Edges,
    ensures
        snapshot_fold(r, edges.map_values(|e: (u64, u64, usize)| edge_line(e))) == Ok::<SnapshotReading, Seq<char>>(
            SnapshotReading { snapshot: SnapshotView { edges: r.snapshot.edges + edges, ..r.snapshot }, ..r },
        ),
    decreases edges.len(),
{
    let lines = edges.map_values(|e: (u64, u64, usize)| edge_line(e));
    if edges.len() == 0 {
        assert(lines =~= Seq::<Seq<char>>::empty());
        assert(r.snapshot.edges + edges =~= r.snapshot.edges);
    } else {
        let init = edges.drop_last();
        let e = edges.last();
        lemma_read_edges(r, init);
        assert(lines.drop_last() =~= init.map_values(|e: (u64, u64, usize)| edge_line(e)));
        let line = edge_line(e);
        assert(lines.last() == line);
        lemma_digits_start(e.0 as nat);
        lemma_digits_start(e.1 as nat);
        lemma_digits_start(e.2 as nat);
        assert(line[0] == decimal(e.0 as nat)[0]);
        lemma_not_keyword(line);
        lemma_split_three(decimal(e.0 as nat), decimal(e.1 as nat), decimal(e.2 as nat));
        crate::text::lemma_parse_decimal(e.0 as nat, u64::MAX as nat);
        crate::text::lemma_parse_decimal(e.1 as nat, u64::MAX as nat);
        crate::text::lemma_parse_decimal(e.2 as nat, usize::MAX as nat);
        assert(r.snapshot.edges + edges =~= (r.snapshot.edges + init).push(e));
    }
}

} // verus!

verus! {

proof fn lemma_fold_one(r: SnapshotReading, line: Seq<char>)
    ensures
        snapshot_fold(r, seq![line]) == snapshot_step(r, line),
{
    assert(seq![line].drop_last() =~= Seq::<Seq<char>>::empty());
    assert(snapshot_fold(r, Seq::<Seq<char>>::empty()) == Ok::<SnapshotReading, Seq<char>>(r));
    assert(seq![line].last() == line);
}

proof fn lemma_snapshot_lines_plain(v: SnapshotView)
    requires
        forall|k: int| 0 <= k < v.users.len() ==> !(#[trigger] v.users[k]).1.contains('|') && !v.users[k].1.contains('\n'),
        !v.placement_info.contains('\n'),
        v.placement_info.len() > 0 ==> v.placement_info.last() != '\r',
    ensures
        forall|k: int| 0 <= k < snapshot_lines(v).len() ==> !(#[trigger] snapshot_lines(v)[k]).contains('\n'),
        forall|k: int| 0 <= k < snapshot_lines(v).len() ==> strip_cr(#[trigger] snapshot_lines(v)[k]) == snapshot_lines(v)[k],
{
    reveal_strlit("SNAPSHOT v2");
    reveal_strlit("timestamp:");
    reveal_strlit("shard_count:");
    reveal_strlit("placement:");
    reveal_strlit("USERS");
    reveal_strlit("EDGES");
    let ts = "timestamp:"@ + decimal(v.timestamp as nat);
    let sc = "shard_count:"@ + decimal(v.shard_count as nat);
    let pl = "placement:"@ + v.placement_info;
    let user_lines = v.users.map_values(|u: (u64, Seq<char>, usize)| user_line(u));
    let edge_lines = v.edges.map_values(|e: (u64, u64, usize)| edge_line(e));
    let lines = snapshot_lines(v);
    lemma_digits_start(v.timestamp as nat);
    lemma_digits_start(v.shard_count as nat);
    assert forall|k: int| 0 <= k < lines.len() implies !(#[trigger] lines[k]).contains('\n') && strip_cr(lines[k]) == lines[k] by {
        let line = lines[k];
        if k == 0 {
            assert(line == "SNAPSHOT v2"@);
        } else if k == 1 {
            assert(line == ts);
            assert(line.last() == decimal(v.timestamp as nat).last());
        } else if k == 2 {
            assert(line == sc);
            assert(line.last() == decimal(v.shard_count as nat).last());
        } else if k == 3 {
            assert(line == pl);
            if v.placement_info.len() > 0 {
                assert(line.last() == v.placement_info.last());
            }
        } else if k == 4 {
            assert(line == "USERS"@);
        } else if k < 5 + v.users.len() {
            let u = v.users[k - 5];
            assert(line == user_line(u));
            lemma_digits_start(u.0 as nat);
            lemma_digits_start(u.2 as nat);
            assert(line.last() == decimal(u.2 as nat).last());
        } else if k == 5 + v.users.len() {
            assert(line == "EDGES"@);
        } else {
            let e = v.edges[k - 6 - v.users.len()];
            assert(line == edge_line(e));
            lemma_digits_start(e.0 as nat);
            lemma_digits_start(e.1 as nat);
            lemma_digits_start(e.2 as nat);
            assert(line.last() == decimal(e.2 as nat).last());
        }
        if line.contains('\n') {
            let i = choose|i: int| 0 <= i < line.len() && line[i] == '\n';
            if k == 5 + v.users.len() || k == 4 || k == 0 {
            } else if k == 1 {
                assert(decimal(v.timestamp as nat)[i - 10] == '\n');
            } else if k == 2 {
                assert(decimal(v.shard_count as nat)[i - 12] == '\n');
            } else if k == 3 {
                assert(v.placement_info[i - 10] == '\n');
            } else if k < 5 + v.users.len() {
                let u = v.users[k - 5];
                let a = decimal(u.0 as nat);
                if i < a.len() {
                    assert(a[i] == '\n');
                } else if a.len() < i < a.len() + 1 + u.1.len() {
                    assert(u.1[i - a.len() - 1] == '\n');
                } else if i > a.len() + 1 + u.1.len() {
                    assert(decimal(u.2 as nat)[i - a.len() - 2 - u.1.len()] == '\n');
                }
            } else {
                let e = v.edges[k - 6 - v.users.len()];
                let a = decimal(e.0 as nat);
                let b = decimal(e.1 as nat);
                if i < a.len() {
                    assert(a[i] == '\n');
                } else if a.len() < i < a.len() + 1 + b.len() {
                    assert(b[i - a.len() - 1] == '\n');
                } else if i > a.len() + 1 + b.len() {
                    assert(decimal(e.2 as nat)[i - a.len() - 2 - b.len()] == '\n');
                }
            }
        }
    }
}

/// The text a snapshot is written as reads back as that snapshot, whenever no user name
/// holds a `|` or a newline, and the placement text holds no newline and does not end in a
/// carriage return.
pub proof fn lemma_snapshot_text_round_trip(v: SnapshotView)
    requires
        forall|k: int| 0 <= k < v.users.len() ==> !(#[trigger] v.users[k]).1.contains('|') && !v.users[k].1.contains('\n'),
        !v.placement_info.contains('\n'),
        v.placement_info.len() > 0 ==> v.placement_info.last() != '\r',
    ensures
        parse_snapshot_text(with_newlines(snapshot_lines(v))) == Ok::<SnapshotView, Seq<char>>(v),
{
    reveal_strlit("timestamp:");
    reveal_strlit("shard_count:");
    reveal_strlit("placement:");
    reveal_strlit("USERS");
    reveal_strlit("EDGES");
    let ts = "timestamp:"@ + decimal(v.timestamp as nat);
    let sc = "shard_count:"@ + decimal(v.shard_count as nat);
    let pl = "placement:"@ + v.placement_info;
    let user_lines = v.users.map_values(|u: (u64, Seq<char>, usize)| user_line(u));
    let edge_lines = v.edges.map_values(|e: (u64, u64, usize)| edge_line(e));
    let lines = snapshot_lines(v);
    lemma_snapshot_lines_plain(v);
    lemma_text_lines_round_trip(lines);
    let rest = lines.drop_first();
    assert(rest =~= seq![ts] + seq![sc] + seq![pl] + seq!["USERS"@] + user_lines + seq!["EDGES"@] + edge_lines);
    let r0 = initial_reading();
    // the three fields
    assert(ts.take(10) =~= "timestamp:"@);
    assert(ts.skip(10) =~= decimal(v.timestamp as nat));
    crate::text::lemma_parse_decimal(v.timestamp as nat, u64::MAX as nat);
    lemma_fold_one(r0, ts);
    let r1 = SnapshotReading { snapshot: SnapshotView { timestamp: v.timestamp, ..r0.snapshot }, ..r0 };
    assert(snapshot_fold(r0, seq![ts]) == Ok::<SnapshotReading, Seq<char>>(r1));
    assert(!has_prefix(sc, "timestamp:"@)) by {
        assert(sc[0] == 's');
        if has_prefix(sc, "timestamp:"@) {
            assert(sc.take(10)[0] == 't');
        }
    }
    assert(sc.take(12) =~= "shard_count:"@);
    assert(sc.skip(12) =~= decimal(v.shard_count as nat));
    crate::text::lemma_parse_decimal(v.shard_count as nat, usize::MAX as nat);
    lemma_fold_one(r1, sc);
    lemma_fold_append(r0, seq![ts], seq![sc]);
    let r2 = SnapshotReading { snapshot: SnapshotView { shard_count: v.shard_count, ..r1.snapshot }, ..r1 };
    assert(snapshot_fold(r0, seq![ts] + seq![sc]) == Ok::<SnapshotReading, Seq<char>>(r2));
    assert(!has_prefix(pl, "timestamp:"@) && !has_prefix(pl, "shard_count:"@)) by {
        assert(pl[0] == 'p');
        if has_prefix(pl, "timestamp:"@) {
            assert(pl.take(10)[0] == 't');
        }
        if has_prefix(pl, "shard_count:"@) {
            assert(pl.take(12)[0] == 's');
        }
    }
    assert(pl.take(10) =~= "placement:"@);
    assert(pl.skip(10) =~= v.placement_info);
    lemma_fold_one(r2, pl);
    lemma_fold_append(r0, seq![ts] + seq![sc], seq![pl]);
    let r3 = SnapshotReading { snapshot: SnapshotView { placement_info: v.placement_info, ..r2.snapshot }, ..r2 };
    assert(snapshot_fold(r0, seq![ts] + seq![sc] + seq![pl]) == Ok::<SnapshotReading, Seq<char>>(r3));
    let users_line = "USERS"@;
    assert(!has_prefix(users_line, "timestamp:"@) && !has_prefix(users_line, "shard_count:"@) && !has_prefix(users_line, "placement:"@));
    lemma_fold_one(r3, users_line);
    lemma_fold_append(r0, seq![ts] + seq![sc] + seq![pl], seq![users_line]);
    let r4 = SnapshotReading { section: Section::Users, ..r3 };
    let a4 = seq![ts] + seq![sc] + seq![pl] + seq![users_line];
    assert(snapshot_fold(r0, a4) == Ok::<SnapshotReading, Seq<char>>(r4));
    // the users
    assert forall|k: int| 0 <= k < v.users.len() implies !(#[trigger] v.users[k]).1.contains('|') by {}
    lemma_read_users(r4, v.users);
    lemma_fold_append(r0, a4, user_lines);
    assert(Seq::<(u64, Seq<char>, usize)>::empty() + v.users =~= v.users);
    let r5 = SnapshotReading { snapshot: SnapshotView { users: v.users, ..r4.snapshot }, ..r4 };
    assert(snapshot_fold(r0, a4 + user_lines) == Ok::<SnapshotReading, Seq<char>>(r5));
    let edges_line = "EDGES"@;
    assert(!has_prefix(edges_line, "timestamp:"@) && !has_prefix(edges_line, "shard_count:"@) && !has_prefix(edges_line, "placement:"@));
    assert(edges_line != users_line) by {
        assert(edges_line[0] != users_line[0]);
    }
    lemma_fold_one(r5, edges_line);
    lemma_fold_append(r0, a4 + user_lines, seq![edges_line]);
    let r6 = SnapshotReading { section: Section::Edges, ..r5 };
    let a6 = a4 + user_lines + seq![edges_line];
    assert(snapshot_fold(r0, a6) == Ok::<SnapshotReading, Seq<char>>(r6));
    // the edges
    lemma_read_edges(r6, v.edges);
    lemma_fold_append(r0, a6, edge_lines);
    assert(Seq::<(u64, u64, usize)>::empty() + v.edges =~= v.edges);
    assert(a6 + edge_lines =~= rest);
}

} // verus!
