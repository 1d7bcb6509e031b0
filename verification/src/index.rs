//! The repository index: a text of `KEY:VALUE` lines from which the name and
//! the version of each package are read.
//!
//! Only the keys `P` (package name) and `V` (version) count. The lines are
//! scanned in order; as soon as a name and a version have both been seen they
//! form a record, and the scan for the next record starts on the following
//! line. What is left unfinished when the text ends is dropped. Of two
//! records with one name the later one stays.

use crate::table::{
    has_key, is_last_with_key, lemma_to_map_domain, lemma_to_map_last_wins, to_map, StringTable,
};
use crate::text::{to_chars, to_string};
use vstd::prelude::*;
use vstd::utf8::{decode_utf8, encode_utf8_decode_utf8, valid_utf8};

verus! {

/// What the index says of one package.
pub struct PackageRecord {
    pub name: Seq<char>,
    pub version: Seq<char>,
}

/// The name of the archive that holds the package of `record`.
pub open spec fn archive_file_name(record: PackageRecord) -> Seq<char> {
    record.name + "-"@ + record.version + ".apk"@
}

/// The number of characters of `s` before its first line feed, or the length
/// of `s` where it has none.
pub open spec fn line_len(s: Seq<char>) -> nat
    decreases s.len(),
{
    if s.len() == 0 || s[0] == '\n' {
        0
    } else {
        1 + line_len(s.drop_first())
    }
}

/// The first line of `s`, without its line feed.
pub open spec fn first_line(s: Seq<char>) -> Seq<char> {
    s.take(line_len(s) as int)
}

/// What follows the first line of `s` and the line feed that ends it; nothing
/// where the text ends with that line.
pub open spec fn after_line(s: Seq<char>) -> Seq<char> {
    if line_len(s) < s.len() {
        s.skip(line_len(s) as int + 1)
    } else {
        Seq::empty()
    }
}

/// `line` begins with the key `key` and a colon.
pub open spec fn starts_with_key(line: Seq<char>, key: char) -> bool {
    line.len() >= 2 && line[0] == key && line[1] == ':'
}

/// The value of `line`: what follows the key `key` and its colon where the
/// line begins with them, the line itself where it does not.
pub open spec fn strip_key(line: Seq<char>, key: char) -> Seq<char> {
    if starts_with_key(line, key) {
        line.skip(2)
    } else {
        line
    }
}

/// What has been seen of the record that is being scanned.
pub struct Pending {
    pub name: Option<Seq<char>>,
    pub version: Option<Seq<char>>,
}

impl Pending {
    /// Nothing seen yet.
    pub open spec fn empty() -> Pending {
        Pending { name: None, version: None }
    }

    /// What has been seen once `line` is read.
    pub open spec fn observe(self, line: Seq<char>) -> Pending {
        if starts_with_key(line, 'P') {
            Pending { name: Some(strip_key(line, 'P')), version: self.version }
        } else if starts_with_key(line, 'V') {
            Pending { name: self.name, version: Some(strip_key(line, 'V')) }
        } else {
            self
        }
    }

    /// Both the name and the version have been seen.
    pub open spec fn complete(self) -> bool {
        self.name is Some && self.version is Some
    }

    /// The record that a name and a version form.
    pub open spec fn record(self) -> PackageRecord {
        PackageRecord { name: self.name->0, version: self.version->0 }
    }

    /// What has been seen when the scan goes on behind `line`: nothing, where
    /// the line completed a record.
    pub open spec fn carry(self, line: Seq<char>) -> Pending {
        if self.observe(line).complete() {
            Pending::empty()
        } else {
            self.observe(line)
        }
    }
}

/// How the scan for one record ends.
pub enum Scan {
    /// A record was completed; `rest` is the text after the line that
    /// completed it.
    Record { record: PackageRecord, rest: Seq<char> },
    /// The text ended first.
    End,
}

/// The scan for one record over the text `s`, with `pending` seen before.
pub open spec fn scan_record(s: Seq<char>, pending: Pending) -> Scan
    decreases s.len(),
{
    if s.len() == 0 {
        Scan::End
    } else {
        let seen = pending.observe(first_line(s));
        if seen.complete() {
            Scan::Record { record: seen.record(), rest: after_line(s) }
        } else {
            scan_record(after_line(s), seen)
        }
    }
}

/// The records of the text `s` in the order in which they are completed,
/// with `pending` seen before.
pub open spec fn records_from(s: Seq<char>, pending: Pending) -> Seq<PackageRecord>
    decreases s.len(),
{
    if s.len() == 0 {
        Seq::empty()
    } else {
        let seen = pending.observe(first_line(s));
        if seen.complete() {
            seq![seen.record()] + records_from(after_line(s), Pending::empty())
        } else {
            records_from(after_line(s), seen)
        }
    }
}

/// The records of an index text.
pub open spec fn records(text: Seq<char>) -> Seq<PackageRecord> {
    records_from(text, Pending::empty())
}

/// What has been seen of an unfinished record when all of `s` is read, with
/// `pending` seen before.
pub open spec fn pending_after(s: Seq<char>, pending: Pending) -> Pending
    decreases s.len(),
{
    if s.len() == 0 {
        pending
    } else {
        pending_after(after_line(s), pending.carry(first_line(s)))
    }
}

/// The records as entries of a table, each under its name.
pub open spec fn named(records: Seq<PackageRecord>) -> Seq<(Seq<char>, PackageRecord)> {
    records.map_values(|r: PackageRecord| (r.name, r))
}

/// The lookup table of a list of records: under each name the last record
/// with that name.
pub open spec fn index_of(records: Seq<PackageRecord>) -> Map<Seq<char>, PackageRecord> {
    to_map(named(records))
}

/// A line of `n` characters, none of them a line feed, at the front of `s`.
pub proof fn lemma_line_len(s: Seq<char>, n: int)
    requires
        0 <= n <= s.len(),
        forall|j: int| 0 <= j < n ==> s[j] != '\n',
        n == s.len() || s[n] == '\n',
    ensures
        line_len(s) == n,
    decreases n,
{
    if n > 0 {
        let tail = s.drop_first();
        assert forall|j: int| 0 <= j < n - 1 implies tail[j] != '\n' by {
            assert(tail[j] == s[j + 1]);
        }
        lemma_line_len(tail, n - 1);
    }
}

/// The scan for one record gives the first of the text's records and leaves
/// the text from which the others come.
pub proof fn lemma_scan_record(s: Seq<char>, pending: Pending)
    ensures
        match scan_record(s, pending) {
            Scan::Record { record, rest } => {
                &&& records_from(s, pending) == seq![record] + records(rest)
                &&& rest.len() < s.len()
            },
            Scan::End => records_from(s, pending) == Seq::<PackageRecord>::empty(),
        },
    decreases s.len(),
{
    if s.len() > 0 {
        let seen = pending.observe(first_line(s));
        if !seen.complete() {
            lemma_scan_record(after_line(s), seen);
        }
    }
}

/// A name is in the lookup table exactly if some record has it, and then the
/// table holds a record of that name.
pub proof fn lemma_index_names(records: Seq<PackageRecord>, name: Seq<char>)
    ensures
        index_of(records).contains_key(name) <==> exists|i: int|
            0 <= i < records.len() && (#[trigger] records[i]).name == name,
        index_of(records).contains_key(name) ==> index_of(records)[name].name == name,
    decreases records.len(),
{
    let entries = named(records);
    lemma_to_map_domain(entries, name);
    if has_key(entries, name) {
        let i = choose|i: int| 0 <= i < entries.len() && (#[trigger] entries[i]).0 == name;
        assert(records[i].name == name);
    }
    if exists|i: int| 0 <= i < records.len() && (#[trigger] records[i]).name == name {
        let i = choose|i: int| 0 <= i < records.len() && (#[trigger] records[i]).name == name;
        assert(entries[i].0 == name);
    }
    if records.len() > 0 {
        assert(named(records).drop_last() == named(records.drop_last()));
        lemma_index_names(records.drop_last(), name);
    }
}

/// Looking a name up gives the last record with that name.
pub proof fn lemma_lookup_last_record(records: Seq<PackageRecord>, i: int)
    requires
        0 <= i < records.len(),
        forall|j: int| i < j < records.len() ==> (#[trigger] records[j]).name != records[i].name,
    ensures
        index_of(records).contains_key(records[i].name),
        index_of(records)[records[i].name] == records[i],
{
    let entries = named(records);
    assert forall|j: int| i < j < entries.len() implies (#[trigger] entries[j]).0
        != entries[i].0 by {
        assert(records[j].name != records[i].name);
    }
    assert(is_last_with_key(entries, i));
    lemma_to_map_last_wins(entries, i);
}

/// The first line of a text that ends in a line feed, and what follows it,
/// when more text is appended.
proof fn lemma_line_of_concat(a: Seq<char>, b: Seq<char>)
    requires
        a.len() > 0,
        a.last() == '\n',
    ensures
        line_len(a) < a.len(),
        line_len(a + b) == line_len(a),
        first_line(a + b) == first_line(a),
        after_line(a + b) == after_line(a) + b,
        after_line(a).len() == 0 || after_line(a).last() == '\n',
    decreases a.len(),
{
    if a[0] == '\n' {
        assert((a + b)[0] == '\n');
        assert(after_line(a + b) == after_line(a) + b);
        if after_line(a).len() > 0 {
            assert(after_line(a).last() == a.last());
        }
    } else {
        let tail = a.drop_first();
        assert(tail.len() > 0);
        assert(tail.last() == a.last());
        assert((a + b).drop_first() == tail + b);
        assert((a + b)[0] == a[0]);
        lemma_line_of_concat(tail, b);
        let n = line_len(tail);
        assert(line_len(a) == n + 1);
        assert(line_len(a + b) == n + 1);
        assert(first_line(a + b) == first_line(a));
        assert(after_line(a) == after_line(tail));
        assert(after_line(a + b) == after_line(tail + b));
    }
}

/// The records of two texts put together, where the first ends at the end of
/// a line or is empty: those of the first, then those of the second, scanned
/// with what the first left unfinished.
pub proof fn lemma_records_of_concat(a: Seq<char>, b: Seq<char>, pending: Pending)
    requires
        a.len() == 0 || a.last() == '\n',
    ensures
        records_from(a + b, pending) == records_from(a, pending) + records_from(
            b,
            pending_after(a, pending),
        ),
    decreases a.len(),
{
    if a.len() == 0 {
        assert(a + b == b);
        assert(Seq::<PackageRecord>::empty() + records_from(b, pending) == records_from(
            b,
            pending,
        ));
    } else {
        lemma_line_of_concat(a, b);
        let seen = pending.observe(first_line(a));
        let next = pending.carry(first_line(a));
        lemma_records_of_concat(after_line(a), b, next);
        if seen.complete() {
            let head = records_from(after_line(a), next);
            let more = records_from(b, pending_after(a, pending));
            assert(seq![seen.record()] + (head + more) == (seq![seen.record()] + head) + more);
        }
    }
}

/// An index text that ends in the middle of a record has the records of the
/// text before that record. After a text that ends with a line feed, a last
/// line that completes no record adds nothing, whether a line feed ends it or
/// the text ends with it: so a line with a name, and none with a version,
/// after a text that ends with a finished record.
pub proof fn lemma_trailing_partial_record(text: Seq<char>, line: Seq<char>)
    requires
        text.len() == 0 || text.last() == '\n',
        !line.contains('\n'),
        !pending_after(text, Pending::empty()).observe(line).complete(),
    ensures
        records(text + line) == records(text),
        records(text + line.push('\n')) == records(text),
{
    let ended = line.push('\n');
    let pending = pending_after(text, Pending::empty());
    let seen = pending.observe(line);
    lemma_records_of_concat(text, line, Pending::empty());
    lemma_records_of_concat(text, ended, Pending::empty());
    assert forall|j: int| 0 <= j < line.len() implies line[j] != '\n' && ended[j] != '\n' by {
        assert(line.contains(line[j]));
    }
    lemma_line_len(line, line.len() as int);
    lemma_line_len(ended, line.len() as int);
    assert(first_line(line) == line);
    assert(first_line(ended) == line);
    assert(after_line(line).len() == 0);
    assert(after_line(ended).len() == 0);
    assert(records_from(after_line(line), seen) == Seq::<PackageRecord>::empty());
    assert(records_from(after_line(ended), seen) == Seq::<PackageRecord>::empty());
    assert(records_from(line, pending) == Seq::<PackageRecord>::empty());
    assert(records_from(ended, pending) == Seq::<PackageRecord>::empty());
    assert(records(text) + Seq::<PackageRecord>::empty() == records(text));
}

/// A line that gives no version completes no record where no version has
/// been seen, and so after a text that ends with a finished record.
pub proof fn lemma_name_completes_nothing(pending: Pending, line: Seq<char>)
    requires
        pending.version is None,
        !starts_with_key(line, 'V'),
    ensures
        !pending.observe(line).complete(),
        !Pending::empty().observe(line).complete(),
{
}

/// `line` fits on a line and gives neither a name nor a version.
pub open spec fn other_line(line: Seq<char>) -> bool {
    !line.contains('\n') && !starts_with_key(line, 'P') && !starts_with_key(line, 'V')
}

/// The text of `lines`, each ended by a line feed.
pub open spec fn lines_text(lines: Seq<Seq<char>>) -> Seq<char>
    decreases lines.len(),
{
    if lines.len() == 0 {
        Seq::empty()
    } else {
        lines[0].push('\n') + lines_text(lines.drop_first())
    }
}

/// A record as an index writes it: a line with the name and a line with the
/// version, with lines of other keys before, between and after them.
pub struct RecordLines {
    pub record: PackageRecord,
    pub before: Seq<Seq<char>>,
    pub between: Seq<Seq<char>>,
    pub after: Seq<Seq<char>>,
}

impl RecordLines {
    /// The name and the version fit on a line, and the other lines give
    /// neither a name nor a version.
    pub open spec fn well_formed(self) -> bool {
        &&& !self.record.name.contains('\n')
        &&& !self.record.version.contains('\n')
        &&& forall|i: int| 0 <= i < self.before.len() ==> other_line(#[trigger] self.before[i])
        &&& forall|i: int| 0 <= i < self.between.len() ==> other_line(#[trigger] self.between[i])
        &&& forall|i: int| 0 <= i < self.after.len() ==> other_line(#[trigger] self.after[i])
    }

    /// The line that gives the name.
    pub open spec fn name_line(self) -> Seq<char> {
        seq!['P', ':'] + self.record.name
    }

    /// The line that gives the version.
    pub open spec fn version_line(self) -> Seq<char> {
        seq!['V', ':'] + self.record.version
    }

    /// The lines of the record, and the blank line that follows them.
    pub open spec fn text(self) -> Seq<char> {
        lines_text(self.before) + (self.name_line().push('\n') + (lines_text(self.between) + (
        self.version_line().push('\n') + (lines_text(self.after) + seq!['\n']))))
    }
}

/// The index text that `blocks` make, one after the other.
pub open spec fn index_text(blocks: Seq<RecordLines>) -> Seq<char>
    decreases blocks.len(),
{
    if blocks.len() == 0 {
        Seq::empty()
    } else {
        blocks[0].text() + index_text(blocks.drop_first())
    }
}

/// The records that `blocks` write.
pub open spec fn written(blocks: Seq<RecordLines>) -> Seq<PackageRecord> {
    blocks.map_values(|block: RecordLines| block.record)
}

/// One line and its line feed: it gives a record where it completes one, and
/// leaves behind what the scan carries on.
proof fn lemma_one_line(line: Seq<char>, pending: Pending)
    requires
        !line.contains('\n'),
    ensures
        line.push('\n').last() == '\n',
        records_from(line.push('\n'), pending) == if pending.observe(line).complete() {
            seq![pending.observe(line).record()]
        } else {
            Seq::<PackageRecord>::empty()
        },
        pending_after(line.push('\n'), pending) == pending.carry(line),
{
    let text = line.push('\n');
    assert forall|j: int| 0 <= j < line.len() implies text[j] != '\n' by {
        assert(line.contains(line[j]));
    }
    lemma_line_len(text, line.len() as int);
    assert(first_line(text) == line);
    assert(after_line(text).len() == 0);
    let seen = pending.observe(line);
    assert(records_from(after_line(text), Pending::empty()) == Seq::<PackageRecord>::empty());
    assert(records_from(after_line(text), seen) == Seq::<PackageRecord>::empty());
    assert(seq![seen.record()] + Seq::<PackageRecord>::empty() == seq![seen.record()]);
    assert(pending_after(after_line(text), pending.carry(line)) == pending.carry(line));
}

/// Lines that give neither a name nor a version give no record and leave
/// what has been seen as it is.
proof fn lemma_other_lines(lines: Seq<Seq<char>>, pending: Pending)
    requires
        !pending.complete(),
        forall|i: int| 0 <= i < lines.len() ==> other_line(#[trigger] lines[i]),
    ensures
        lines_text(lines).len() == 0 || lines_text(lines).last() == '\n',
        records_from(lines_text(lines), pending) == Seq::<PackageRecord>::empty(),
        pending_after(lines_text(lines), pending) == pending,
    decreases lines.len(),
{
    if lines.len() > 0 {
        let rest = lines.drop_first();
        assert(other_line(lines[0]));
        assert forall|i: int| 0 <= i < rest.len() implies other_line(#[trigger] rest[i]) by {
            assert(other_line(lines[i + 1]));
        }
        lemma_one_line(lines[0], pending);
        lemma_other_lines(rest, pending);
        lemma_records_of_concat(lines[0].push('\n'), lines_text(rest), pending);
        lemma_pending_of_concat(lines[0].push('\n'), lines_text(rest), pending);
        assert(Seq::<PackageRecord>::empty() + Seq::<PackageRecord>::empty() == Seq::<
            PackageRecord,
        >::empty());
        if lines_text(rest).len() > 0 {
            assert(lines_text(lines).last() == lines_text(rest).last());
        }
    }
}

/// What is left unfinished after two texts put together, where the first
/// ends at the end of a line or is empty.
proof fn lemma_pending_of_concat(a: Seq<char>, b: Seq<char>, pending: Pending)
    requires
        a.len() == 0 || a.last() == '\n',
    ensures
        pending_after(a + b, pending) == pending_after(b, pending_after(a, pending)),
    decreases a.len(),
{
    if a.len() == 0 {
        assert(a + b == b);
    } else {
        lemma_line_of_concat(a, b);
        lemma_pending_of_concat(after_line(a), b, pending.carry(first_line(a)));
    }
}

/// The lines of one record are read as that record, and leave nothing
/// unfinished.
proof fn lemma_record_lines(block: RecordLines)
    requires
        block.well_formed(),
    ensures
        block.text().len() > 0,
        block.text().last() == '\n',
        records_from(block.text(), Pending::empty()) == seq![block.record],
        pending_after(block.text(), Pending::empty()) == Pending::empty(),
{
    let none = Seq::<PackageRecord>::empty();
    let start = Pending::empty();
    let named = Pending { name: Some(block.record.name), version: None };
    let a = lines_text(block.before);
    let b = block.name_line().push('\n');
    let c = lines_text(block.between);
    let d = block.version_line().push('\n');
    let e = lines_text(block.after);
    let f = seq!['\n'];
    let blank = Seq::<char>::empty();

    assert(block.name_line().skip(2) == block.record.name);
    assert(block.version_line().skip(2) == block.record.version);
    assert forall|j: int| 0 <= j < block.name_line().len() implies block.name_line()[j]
        != '\n' by {
        if j >= 2 {
            assert(block.record.name.contains(block.record.name[j - 2]));
        }
    }
    assert forall|j: int| 0 <= j < block.version_line().len() implies block.version_line()[j]
        != '\n' by {
        if j >= 2 {
            assert(block.record.version.contains(block.record.version[j - 2]));
        }
    }
    assert(start.observe(block.name_line()) == named);
    assert(named.observe(block.version_line()).record() == block.record);
    assert(named.carry(block.version_line()) == start);
    assert(blank.push('\n') == f);
    assert(start.observe(blank) == start);

    lemma_other_lines(block.before, start);
    lemma_one_line(block.name_line(), start);
    lemma_other_lines(block.between, named);
    lemma_one_line(block.version_line(), named);
    lemma_other_lines(block.after, start);
    lemma_one_line(blank, start);

    lemma_records_of_concat(e, f, start);
    lemma_pending_of_concat(e, f, start);
    assert(records_from(e + f, start) == none + none);
    assert(none + none == none);
    assert((e + f).last() == '\n');

    lemma_records_of_concat(d, e + f, named);
    lemma_pending_of_concat(d, e + f, named);
    assert(records_from(d + (e + f), named) == seq![block.record] + none);
    assert(seq![block.record] + none == seq![block.record]);
    assert((d + (e + f)).last() == '\n');

    lemma_records_of_concat(c, d + (e + f), named);
    lemma_pending_of_concat(c, d + (e + f), named);
    assert(none + seq![block.record] == seq![block.record]);
    assert((c + (d + (e + f))).last() == '\n');

    lemma_records_of_concat(b, c + (d + (e + f)), start);
    lemma_pending_of_concat(b, c + (d + (e + f)), start);
    assert((b + (c + (d + (e + f)))).last() == '\n');

    lemma_records_of_concat(a, b + (c + (d + (e + f))), start);
    lemma_pending_of_concat(a, b + (c + (d + (e + f))), start);
    assert(block.text() == a + (b + (c + (d + (e + f)))));
    assert(block.text().last() == '\n');
}

/// An index text is read as the records that it writes, in order: each with
/// a line for its name and a line for its version that fit on a line, with
/// lines of other keys anywhere among them, and a blank line behind it.
pub proof fn lemma_records_of_index_text(blocks: Seq<RecordLines>)
    requires
        forall|i: int| 0 <= i < blocks.len() ==> (#[trigger] blocks[i]).well_formed(),
    ensures
        records(index_text(blocks)) == written(blocks),
    decreases blocks.len(),
{
    if blocks.len() > 0 {
        let rest = blocks.drop_first();
        assert(blocks[0].well_formed());
        assert forall|i: int| 0 <= i < rest.len() implies (#[trigger] rest[i]).well_formed() by {
            assert(blocks[i + 1].well_formed());
        }
        lemma_record_lines(blocks[0]);
        lemma_records_of_index_text(rest);
        lemma_records_of_concat(blocks[0].text(), index_text(rest), Pending::empty());
        assert(seq![blocks[0].record] + written(rest) == written(blocks));
    } else {
        assert(written(blocks) == Seq::<PackageRecord>::empty());
    }
}

/// In the index of such a text a name stands for the last of the records
/// with that name, whatever the name begins with and whatever other lines
/// the records carry.
pub proof fn lemma_index_text_last_wins(blocks: Seq<RecordLines>, i: int)
    requires
        forall|j: int| 0 <= j < blocks.len() ==> (#[trigger] blocks[j]).well_formed(),
        0 <= i < blocks.len(),
        forall|j: int|
            i < j < blocks.len() ==> (#[trigger] blocks[j]).record.name != blocks[i].record.name,
    ensures
        index_of(records(index_text(blocks))).contains_key(blocks[i].record.name),
        index_of(records(index_text(blocks)))[blocks[i].record.name] == blocks[i].record,
{
    lemma_records_of_index_text(blocks);
    let given = written(blocks);
    assert forall|j: int| i < j < given.len() implies (#[trigger] given[j]).name
        != given[i].name by {
        assert(blocks[j].record.name != blocks[i].record.name);
    }
    lemma_lookup_last_record(given, i);
}

/// In the index of such a text a name that no record has is not found.
pub proof fn lemma_index_text_unknown(blocks: Seq<RecordLines>, name: Seq<char>)
    requires
        forall|j: int| 0 <= j < blocks.len() ==> (#[trigger] blocks[j]).well_formed(),
        forall|j: int| 0 <= j < blocks.len() ==> (#[trigger] blocks[j]).record.name != name,
    ensures
        !index_of(records(index_text(blocks))).contains_key(name),
{
    lemma_records_of_index_text(blocks);
    let given = written(blocks);
    lemma_index_names(given, name);
    if exists|i: int| 0 <= i < given.len() && (#[trigger] given[i]).name == name {
        let i = choose|i: int| 0 <= i < given.len() && (#[trigger] given[i]).name == name;
        assert(blocks[i].record.name != name);
    }
}

/// Why an index is refused.
#[derive(Debug, Clone, Copy, PartialEq, Eq, Structural)]
pub enum IndexError {
    /// The bytes are no UTF-8 text.
    Malformed,
}

/// An index text that is read line by line from its front.
pub struct IndexReader {
    text: Vec<char>,
    pos: usize,
}

impl IndexReader {
    #[verifier::type_invariant]
    spec fn in_bounds(&self) -> bool {
        self.pos <= self.text@.len()
    }

    /// The text that is still to be read.
    pub closed spec fn remaining(&self) -> Seq<char> {
        self.text@.skip(self.pos as int)
    }

    /// A reader at the front of `text`.
    pub fn new(text: &str) -> (reader: Self)
        ensures
            reader.remaining() == text@,
    {
        let reader = IndexReader { text: to_chars(text), pos: 0 };
        assert(reader.text@.skip(0) == reader.text@);
        reader
    }

    /// The place of the line feed that ends the line at the reader's
    /// position, or the length of the text where none does.
    fn line_end(&self) -> (end: usize)
        ensures
            self.pos <= end <= self.text@.len(),
            end - self.pos == line_len(self.remaining()),
    {
        proof {
            use_type_invariant(self);
        }
        let mut end: usize = self.pos;
        while end < self.text.len() && self.text[end] != '\n'
            invariant
                self.pos <= end <= self.text@.len(),
                forall|j: int| self.pos <= j < end ==> self.text@[j] != '\n',
            decreases self.text@.len() - end,
        {
            end += 1;
        }
        proof {
            lemma_line_len(self.remaining(), end - self.pos);
        }
        end
    }

    /// Whether the characters from `from` up to `to` begin with `key` and a
    /// colon.
    fn key_at(&self, from: usize, to: usize, key: char) -> (found: bool)
        requires
            from <= to <= self.text@.len(),
        ensures
            found == starts_with_key(self.text@.subrange(from as int, to as int), key),
    {
        to - from >= 2 && self.text[from] == key && self.text[from + 1] == ':'
    }

    /// The value of the line from `from` up to `to`: what follows the key
    /// `key` and its colon where the line begins with them.
    fn value_at(&self, from: usize, to: usize, key: char) -> (value: String)
        requires
            from <= to <= self.text@.len(),
        ensures
            value@ == strip_key(self.text@.subrange(from as int, to as int), key),
    {
        if self.key_at(from, to, key) {
            assert(self.text@.subrange(from as int, to as int).skip(2) == self.text@.subrange(
                from + 2,
                to as int,
            ));
            to_string(&self.text, from + 2, to)
        } else {
            to_string(&self.text, from, to)
        }
    }
}

/// The name and the version of one package.
pub struct PackageInfo {
    name: String,
    version: String,
}

impl View for PackageInfo {
    type V = PackageRecord;

    closed spec fn view(&self) -> PackageRecord {
        PackageRecord { name: self.name@, version: self.version@ }
    }
}

impl PackageInfo {
    /// Scans the lines of `reader` for the next record and leaves the reader
    /// behind the line that completed it; `None` where the text ends first.
    /// Lines that are read after a record is complete belong to the scan for
    /// the next record.
    pub fn parse(reader: &mut IndexReader) -> (found: Option<PackageInfo>)
        ensures
            match scan_record(old(reader).remaining(), Pending::empty()) {
                Scan::Record { record, rest } => {
                    &&& found matches Some(info)
                    &&& info@ == record
                    &&& final(reader).remaining() == rest
                },
                Scan::End => found is None && final(reader).remaining().len() == 0,
            },
    {
        let mut name: Option<String> = None;
        let mut version: Option<String> = None;
        let ghost start = reader.remaining();
        let ghost mut seen = Pending::empty();
        proof {
            use_type_invariant(&*reader);
        }
        loop
            invariant
                reader.pos <= reader.text@.len(),
                reader.text == old(reader).text,
                start == old(reader).remaining(),
                seen.name == (match name {
                    Some(n) => Some(n@),
                    None => None,
                }),
                seen.version == (match version {
                    Some(v) => Some(v@),
                    None => None,
                }),
                !seen.complete(),
                scan_record(start, Pending::empty()) == scan_record(reader.remaining(), seen),
            decreases reader.text@.len() - reader.pos,
        {
            let from = reader.pos;
            if from == reader.text.len() {
                return None;
            }
            let end = reader.line_end();
            let ghost rest = reader.remaining();
            let ghost line = reader.text@.subrange(from as int, end as int);
            assert(line == first_line(rest));
            if reader.key_at(from, end, 'P') {
                name = Some(reader.value_at(from, end, 'P'));
            } else if reader.key_at(from, end, 'V') {
                version = Some(reader.value_at(from, end, 'V'));
            }
            proof {
                seen = seen.observe(line);
            }
            if end < reader.text.len() {
                assert(reader.text@.skip(end + 1) == after_line(rest));
                reader.pos = end + 1;
            } else {
                assert(reader.text@.skip(end as int) == after_line(rest));
                reader.pos = end;
            }
            if name.is_some() && version.is_some() {
                return Some(PackageInfo { name: name.unwrap(), version: version.unwrap() });
            }
        }
    }

    /// The package's name.
    pub fn name(&self) -> (name: &str)
        ensures
            name@ == self@.name,
    {
        self.name.as_str()
    }

    /// The package's version.
    pub fn version(&self) -> (version: &str)
        ensures
            version@ == self@.version,
    {
        self.version.as_str()
    }

    /// The name of the archive that holds the package: the name, a hyphen,
    /// the version and `.apk`.
    pub fn file_name(&self) -> (file_name: String)
        ensures
            file_name@ == archive_file_name(self@),
    {
        let mut file_name = self.name.clone();
        file_name.append("-");
        file_name.append(self.version.as_str());
        file_name.append(".apk");
        file_name
    }
}

/// The packages of a repository index, by name.
pub struct PackageIndex {
    infos: StringTable<PackageInfo>,
}

impl View for PackageIndex {
    type V = Map<Seq<char>, PackageRecord>;

    closed spec fn view(&self) -> Map<Seq<char>, PackageRecord> {
        self.infos@.map_values(|info: PackageInfo| info@)
    }
}

impl PackageIndex {
    /// Reads an index from the bytes of its text. Under each name the index
    /// holds the last record of the text with that name. Bytes that are no
    /// UTF-8 text are refused.
    pub fn new(bytes: &[u8]) -> (made: Result<PackageIndex, IndexError>)
        ensures
            match made {
                Ok(index) => valid_utf8(bytes@) && index@ == index_of(
                    records(decode_utf8(bytes@)),
                ),
                Err(e) => !valid_utf8(bytes@) && e == IndexError::Malformed,
            },
    {
        match core::str::from_utf8(bytes) {
            Ok(text) => {
                proof {
                    encode_utf8_decode_utf8(text@);
                }
                Ok(PackageIndex::from_text(text))
            },
            Err(_) => Err(IndexError::Malformed),
        }
    }

    /// Reads an index text. Under each name the index holds the last record
    /// of the text with that name.
    pub fn from_text(text: &str) -> (index: PackageIndex)
        ensures
            index@ == index_of(records(text@)),
    {
        let mut reader = IndexReader::new(text);
        let mut infos: StringTable<PackageInfo> = StringTable::new();
        let ghost mut done: Seq<PackageRecord> = Seq::empty();
        assert(infos@.map_values(|info: PackageInfo| info@) == index_of(done));
        assert(done + records(text@) == records(text@));
        loop
            invariant
                records(text@) == done + records(reader.remaining()),
                infos@.map_values(|info: PackageInfo| info@) == index_of(done),
            decreases reader.remaining().len(),
        {
            proof {
                lemma_scan_record(reader.remaining(), Pending::empty());
            }
            match PackageInfo::parse(&mut reader) {
                Some(info) => {
                    let ghost record = info@;
                    let ghost table = infos@;
                    infos.insert(info.name.clone(), info);
                    proof {
                        assert(named(done.push(record)) == named(done).push((record.name, record)));
                        assert(named(done.push(record)).drop_last() == named(done));
                        assert(infos@.map_values(|info: PackageInfo| info@) == table.map_values(
                            |info: PackageInfo| info@,
                        ).insert(record.name, record));
                        assert(done + (seq![record] + records(reader.remaining())) == done.push(
                            record,
                        ) + records(reader.remaining()));
                        done = done.push(record);
                    }
                },
                None => {
                    assert(done + Seq::<PackageRecord>::empty() == done);
                    return PackageIndex { infos };
                },
            }
        }
    }

    /// The package of the name `name`, if the index has one.
    pub fn get(&self, name: &str) -> (found: Option<&PackageInfo>)
        ensures
            match found {
                Some(info) => self@.contains_key(name@) && info@ == self@[name@],
                None => !self@.contains_key(name@),
            },
    {
        self.infos.get(name)
    }

    /// The number of packages in the index.
    pub fn len(&self) -> (n: usize)
        ensures
            n == self@.dom().len(),
    {
        assert(self@.dom() == self.infos@.dom());
        self.infos.len()
    }
}

} // verus!
