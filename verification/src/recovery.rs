//! The recovery report: which temporary files a repair removed, kept as a
//! small text file beside the database.

use vstd::prelude::*;
use crate::error::{Error, ErrorKind, Result};
use crate::options::FailOnCorruptionPolicy;

verus! {

pub const RECOVERY_REPORT_FILE_NAME: &'static str = "RECOVERY_REPORT";
pub const REPORT_HEADER: &'static str = "trine-kv recovery report v1";
pub const REPORT_FILE_LIST: &'static str = "repaired_temporary_files:";

/// What a repair did at open.
#[derive(Debug, Clone, PartialEq, Eq)]
pub struct RecoveryReport {
    repaired_temporary_files: Vec<String>,
}

pub open spec fn string_views(v: Seq<String>) -> Seq<Seq<char>> {
    v.map_values(|s: String| s@)
}

impl View for RecoveryReport {
    type V = Seq<Seq<char>>;

    closed spec fn view(&self) -> Seq<Seq<char>> {
        string_views(self.repaired_temporary_files@)
    }
}

impl RecoveryReport {
    pub fn new(repaired_temporary_files: Vec<String>) -> (r: Self)
        ensures
            r@ == string_views(repaired_temporary_files@),
    {
        RecoveryReport { repaired_temporary_files }
    }

    /// Names of the temporary files that were removed.
    #[must_use]
    pub fn repaired_temporary_files(&self) -> (r: &[String])
        ensures
            string_views(r@) == self@,
    {
        self.repaired_temporary_files.as_slice()
    }

    #[must_use]
    pub fn is_empty(&self) -> (r: bool)
        ensures
            r == (self@.len() == 0),
    {
        self.repaired_temporary_files.len() == 0
    }
}

/// Path of the recovery report in the database directory.
#[must_use]
pub fn recovery_report_path(db_path: &std::path::Path) -> (r: std::path::PathBuf)
    ensures
        r == crate::paths::joined_path(db_path, RECOVERY_REPORT_FILE_NAME@),
{
    crate::paths::join_path(db_path, RECOVERY_REPORT_FILE_NAME)
}

// ---------------------------------------------------------------- text

pub open spec fn newline() -> Seq<char> {
    seq!['\n']
}

pub open spec fn entry_prefix() -> Seq<char> {
    seq!['-', ' ']
}

/// One line per file: `- `, the name and a newline.
pub open spec fn entry_lines(files: Seq<Seq<char>>) -> Seq<char>
    decreases files.len(),
{
    if files.len() == 0 {
        Seq::empty()
    } else {
        entry_lines(files.drop_last()) + entry_prefix() + files.last() + newline()
    }
}

/// The text of a report: the header line, the list header line, and one
/// line per file.
pub open spec fn report_text(files: Seq<Seq<char>>) -> Seq<char> {
    REPORT_HEADER@ + newline() + REPORT_FILE_LIST@ + newline() + entry_lines(files)
}

pub fn encode_report(report: &RecoveryReport) -> (r: String)
    ensures
        r@ == report_text(report@),
{
    let mut text = String::from_str(REPORT_HEADER);
    text.append("\n");
    text.append(REPORT_FILE_LIST);
    text.append("\n");
    proof {
        reveal_strlit("\n");
        reveal_strlit("- ");
    }
    let files = &report.repaired_temporary_files;
    let ghost views = report@;
    let mut i: usize = 0;
    while i < files.len()
        invariant
            i <= files@.len(),
            views == string_views(files@),
            "\n"@ == newline(),
            "- "@ == entry_prefix(),
            text@ == REPORT_HEADER@ + newline() + REPORT_FILE_LIST@ + newline() + entry_lines(views.take(i as int)),
        decreases files@.len() - i,
    {
        text.append("- ");
        text.append(files[i].as_str());
        text.append("\n");
        proof {
            assert(views.take(i + 1).drop_last() =~= views.take(i as int));
            assert(views.take(i + 1).last() == files@[i as int]@);
            assert(text@ =~= REPORT_HEADER@ + newline() + REPORT_FILE_LIST@ + newline() + entry_lines(views.take(i + 1)));
        }
        i = i + 1;
    }
    proof {
        assert(views.take(files@.len() as int) =~= views);
    }
    text
}

/// Position of the first newline at or after `from`, or the length.
pub open spec fn next_newline(s: Seq<char>, from: int) -> int
    decreases s.len() - from,
{
    if from < 0 || from >= s.len() {
        s.len() as int
    } else if s[from] == '\n' {
        from
    } else {
        next_newline(s, from + 1)
    }
}

/// A line without the carriage return before its newline.
pub open spec fn strip_cr(line: Seq<char>) -> Seq<char> {
    if line.len() > 0 && line.last() == '\r' {
        line.drop_last()
    } else {
        line
    }
}

/// The lines of `s` from position `from` on, as `str::lines` gives them:
/// split at newlines, a carriage return before a newline dropped, and no
/// empty line after a final newline.
pub open spec fn lines_from(s: Seq<char>, from: int) -> Seq<Seq<char>>
    decreases s.len() - from,
{
    if from < 0 || from >= s.len() {
        Seq::empty()
    } else {
        let e = next_newline(s, from);
        proof {
            lemma_next_newline(s, from);
        }
        if e >= s.len() {
            seq![s.subrange(from, s.len() as int)]
        } else {
            seq![strip_cr(s.subrange(from, e))] + lines_from(s, e + 1)
        }
    }
}

pub proof fn lemma_next_newline(s: Seq<char>, from: int)
    requires
        0 <= from <= s.len(),
    ensures
        from <= next_newline(s, from) <= s.len(),
        next_newline(s, from) < s.len() ==> s[next_newline(s, from)] == '\n',
        forall|k: int| from <= k < next_newline(s, from) ==> s[k] != '\n',
    decreases s.len() - from,
{
    if from < s.len() && s[from] != '\n' {
        lemma_next_newline(s, from + 1);
    }
}

proof fn lemma_next_newline_skip(s: Seq<char>, from: int, to: int)
    requires
        0 <= from <= to <= s.len(),
        forall|k: int| from <= k < to ==> s[k] != '\n',
    ensures
        next_newline(s, from) == next_newline(s, to),
    decreases to - from,
{
    if from < to {
        lemma_next_newline_skip(s, from + 1, to);
    }
}

fn strip_cr_str(line: &str) -> (r: String)
    ensures
        r@ == strip_cr(line@),
{
    let n = line.unicode_len();
    if n > 0 && line.get_char(n - 1) == '\r' {
        line.substring_char(0, n - 1).to_owned()
    } else {
        line.to_owned()
    }
}

/// Splits text into lines as `str::lines` does.
pub fn split_lines(text: &str) -> (r: Vec<String>)
    ensures
        string_views(r@) == lines_from(text@, 0),
{
    let n = text.unicode_len();
    let ghost s = text@;
    let mut lines: Vec<String> = Vec::new();
    let mut start: usize = 0;
    let mut i: usize = 0;
    while i < n
        invariant
            n == s.len(),
            s == text@,
            start <= i <= n,
            forall|k: int| start <= k < i ==> s[k] != '\n',
            lines_from(s, 0) == string_views(lines@) + lines_from(s, start as int),
        decreases n - i,
    {
        if text.get_char(i) == '\n' {
            proof {
                lemma_next_newline_skip(s, start as int, i as int);
            }
            let piece = text.substring_char(start, i);
            let line = strip_cr_str(piece);
            let ghost before = lines@;
            lines.push(line);
            proof {
                assert(string_views(lines@) =~= string_views(before).push(line@));
                assert(lines_from(s, start as int) == seq![strip_cr(s.subrange(start as int, i as int))] + lines_from(s, i + 1));
                assert(string_views(lines@) + lines_from(s, i + 1) =~= string_views(before) + lines_from(s, start as int));
            }
            start = i + 1;
        }
        i = i + 1;
    }
    if start < n {
        proof {
            lemma_next_newline_skip(s, start as int, n as int);
        }
        let piece = text.substring_char(start, n);
        let ghost before = lines@;
        lines.push(piece.to_owned());
        proof {
            assert(string_views(lines@) =~= string_views(before) + lines_from(s, start as int));
        }
    } else {
        proof {
            assert(string_views(lines@) + lines_from(s, start as int) =~= string_views(lines@));
        }
    }
    lines
}

/// What reading a report's text gives: its file names, or the message of
/// the first problem.
pub open spec fn report_of_text(text: Seq<char>) -> core::result::Result<Seq<Seq<char>>, Seq<char>> {
    let ls = lines_from(text, 0);
    if ls.len() == 0 || ls[0] != REPORT_HEADER@ {
        Err("unknown recovery report header"@)
    } else if ls.len() < 2 || ls[1] != REPORT_FILE_LIST@ {
        Err("missing recovery report file list"@)
    } else if exists|k: int| 2 <= k < ls.len() && !entry_prefix().is_prefix_of(#[trigger] ls[k]) {
        Err("invalid recovery report file entry"@)
    } else {
        Ok(ls.skip(2).map_values(|l: Seq<char>| l.skip(2)))
    }
}

/// Reads a report from its text.
pub fn decode_report(text: &str) -> (r: Result<RecoveryReport>)
    ensures
        match report_of_text(text@) {
            Ok(files) => r matches Ok(report) && report@ == files,
            Err(message) => r matches Err(e) && e.kind() == ErrorKind::InvalidFormat
                && e.message_view() == message,
        },
{
    let lines = split_lines(text);
    let ghost ls = lines_from(text@, 0);
    let header = String::from_str(REPORT_HEADER);
    if lines.len() == 0 || lines[0] != header {
        return Err(Error::invalid_format("unknown recovery report header"));
    }
    let list = String::from_str(REPORT_FILE_LIST);
    if lines.len() < 2 || lines[1] != list {
        proof {
            assert(ls[0] == lines@[0]@);
        }
        return Err(Error::invalid_format("missing recovery report file list"));
    }
    proof {
        assert(ls[0] == lines@[0]@);
        assert(ls[1] == lines@[1]@);
    }
    let mut files: Vec<String> = Vec::new();
    let mut k: usize = 2;
    while k < lines.len()
        invariant
            2 <= k <= lines@.len(),
            ls == string_views(lines@),
            ls == lines_from(text@, 0),
            ls[0] == REPORT_HEADER@,
            ls[1] == REPORT_FILE_LIST@,
            forall|j: int| 2 <= j < k ==> entry_prefix().is_prefix_of(#[trigger] ls[j]),
            string_views(files@) == ls.subrange(2, k as int).map_values(|l: Seq<char>| l.skip(2)),
        decreases lines@.len() - k,
    {
        let line = lines[k].as_str();
        let n = line.unicode_len();
        assert(ls[k as int] == line@);
        if n < 2 || line.get_char(0) != '-' || line.get_char(1) != ' ' {
            proof {
                assert(!entry_prefix().is_prefix_of(ls[k as int]));
            }
            return Err(Error::invalid_format("invalid recovery report file entry"));
        }
        proof {
            assert(entry_prefix() =~= line@.take(2));
        }
        let entry = line.substring_char(2, n).to_owned();
        let ghost before = files@;
        files.push(entry);
        proof {
            assert(string_views(files@) =~= string_views(before).push(line@.skip(2)));
            assert(ls.subrange(2, k + 1).map_values(|l: Seq<char>| l.skip(2)) =~= ls.subrange(2, k as int).map_values(
                |l: Seq<char>| l.skip(2),
            ).push(ls[k as int].skip(2)));
        }
        k = k + 1;
    }
    proof {
        assert(ls.subrange(2, ls.len() as int) =~= ls.skip(2));
    }
    Ok(RecoveryReport { repaired_temporary_files: files })
}

// ---------------------------------------------------------------- round trip

proof fn lemma_next_newline_shift(p: Seq<char>, q: Seq<char>, k: int)
    requires
        0 <= k <= q.len(),
    ensures
        next_newline(p + q, p.len() + k) == p.len() + next_newline(q, k),
    decreases q.len() - k,
{
    if k < q.len() {
        assert((p + q)[p.len() + k] == q[k]);
        if q[k] != '\n' {
            lemma_next_newline_shift(p, q, k + 1);
        }
    }
}

proof fn lemma_lines_shift(p: Seq<char>, q: Seq<char>, k: int)
    requires
        0 <= k <= q.len(),
    ensures
        lines_from(p + q, p.len() + k) == lines_from(q, k),
    decreases q.len() - k,
{
    if k < q.len() {
        let s = p + q;
        lemma_next_newline_shift(p, q, k);
        lemma_next_newline(q, k);
        let e = next_newline(q, k);
        if e >= q.len() {
            assert(s.subrange(p.len() + k, s.len() as int) =~= q.subrange(k, q.len() as int));
        } else {
            assert(s.subrange(p.len() + k, p.len() + e) =~= q.subrange(k, e));
            lemma_lines_shift(p, q, e + 1);
        }
    }
}

/// A line without newlines, then a newline, then the rest.
proof fn lemma_lines_cons(a: Seq<char>, rest: Seq<char>)
    requires
        forall|k: int| 0 <= k < a.len() ==> a[k] != '\n',
    ensures
        lines_from(a + newline() + rest, 0) == seq![strip_cr(a)] + lines_from(rest, 0),
{
    let s = a + newline() + rest;
    assert(s[a.len() as int] == '\n');
    assert forall|k: int| 0 <= k < a.len() implies s[k] != '\n' by {
        assert(s[k] == a[k]);
    }
    lemma_next_newline_skip(s, 0, a.len() as int);
    assert(next_newline(s, a.len() as int) == a.len());
    assert(s.subrange(0, a.len() as int) =~= a);
    assert(s =~= (a + newline()) + rest);
    lemma_lines_shift(a + newline(), rest, 0);
}

proof fn lemma_entry_front(files: Seq<Seq<char>>)
    requires
        files.len() > 0,
    ensures
        entry_lines(files) == entry_prefix() + files[0] + newline() + entry_lines(files.drop_first()),
    decreases files.len(),
{
    if files.len() == 1 {
        assert(files.drop_last() =~= Seq::<Seq<char>>::empty());
        assert(files.drop_first() =~= Seq::<Seq<char>>::empty());
        assert(entry_lines(files) =~= entry_prefix() + files[0] + newline());
    } else {
        let dl = files.drop_last();
        lemma_entry_front(dl);
        assert(files.drop_first().drop_last() =~= dl.drop_first());
        assert(files.drop_first().last() == files.last());
        assert(dl[0] == files[0]);
        assert(entry_lines(files) =~= entry_prefix() + files[0] + newline() + entry_lines(files.drop_first()));
    }
}

/// A file name that the report keeps as it is: no newline, and no carriage
/// return at its end.
pub open spec fn plain_name(name: Seq<char>) -> bool {
    (forall|k: int| 0 <= k < name.len() ==> name[k] != '\n') && !(name.len() > 0 && name.last() == '\r')
}

proof fn lemma_entry_lines(files: Seq<Seq<char>>)
    requires
        forall|i: int| 0 <= i < files.len() ==> plain_name(#[trigger] files[i]),
    ensures
        lines_from(entry_lines(files), 0) == files.map_values(|f: Seq<char>| entry_prefix() + f),
    decreases files.len(),
{
    if files.len() == 0 {
        assert(files.map_values(|f: Seq<char>| entry_prefix() + f) =~= Seq::<Seq<char>>::empty());
    } else {
        lemma_entry_front(files);
        let rest = files.drop_first();
        assert forall|i: int| 0 <= i < rest.len() implies plain_name(#[trigger] rest[i]) by {
            assert(rest[i] == files[i + 1]);
        }
        lemma_entry_lines(rest);
        let a = entry_prefix() + files[0];
        assert(plain_name(files[0]));
        assert forall|k: int| 0 <= k < a.len() implies a[k] != '\n' by {
            if k >= 2 {
                assert(a[k] == files[0][k - 2]);
            }
        }
        assert(entry_prefix() + files[0] + newline() + entry_lines(rest) =~= a + newline() + entry_lines(rest));
        lemma_lines_cons(a, entry_lines(rest));
        assert(strip_cr(a) == a) by {
            if files[0].len() > 0 {
                assert(a.last() == files[0].last());
            }
        }
        assert(files.map_values(|f: Seq<char>| entry_prefix() + f) =~= seq![a] + rest.map_values(
            |f: Seq<char>| entry_prefix() + f,
        ));
    }
}

/// Reading back the text written for a report gives the same file names,
/// for names without newlines that do not end in a carriage return.
pub proof fn lemma_report_round_trip(files: Seq<Seq<char>>)
    requires
        forall|i: int| 0 <= i < files.len() ==> plain_name(#[trigger] files[i]),
    ensures
        report_of_text(report_text(files)) == Ok::<Seq<Seq<char>>, Seq<char>>(files),
{
    reveal_strlit("trine-kv recovery report v1");
    reveal_strlit("repaired_temporary_files:");
    let h = REPORT_HEADER@;
    let l = REPORT_FILE_LIST@;
    let entries = entry_lines(files);
    assert(report_text(files) =~= h + newline() + (l + newline() + entries));
    lemma_lines_cons(h, l + newline() + entries);
    lemma_lines_cons(l, entries);
    lemma_entry_lines(files);
    assert(strip_cr(h) == h);
    assert(strip_cr(l) == l);
    let ls = lines_from(report_text(files), 0);
    let mapped = files.map_values(|f: Seq<char>| entry_prefix() + f);
    assert(ls =~= seq![h, l] + mapped);
    assert forall|k: int| 2 <= k < ls.len() implies entry_prefix().is_prefix_of(#[trigger] ls[k]) by {
        assert(ls[k] == entry_prefix() + files[k - 2]);
        assert((entry_prefix() + files[k - 2]).take(2) =~= entry_prefix());
    }
    assert(ls.skip(2).map_values(|x: Seq<char>| x.skip(2)) =~= files) by {
        assert forall|i: int| 0 <= i < files.len() implies ls.skip(2).map_values(|x: Seq<char>| x.skip(2))[i] == files[i] by {
            assert(ls.skip(2)[i] == entry_prefix() + files[i]);
            assert((entry_prefix() + files[i]).skip(2) =~= files[i]);
        }
    }
}

/// Whether the temporary files found at open may be removed: under the
/// fail-closed policy their presence is an error that names them.
pub fn check_repair_allowed(policy: FailOnCorruptionPolicy, names: &[String]) -> (r: Result<()>)
    ensures
        (names@.len() == 0 || policy == FailOnCorruptionPolicy::RepairSafeTemporaryFiles) <==> r is Ok,
        r matches Err(e) ==> e.kind() == ErrorKind::Corruption && e.message_view()
            == "safe temporary files require explicit repair: "@ + crate::storage_names::joined(
            crate::storage_names::string_views(names@),
        ),
{
    if names.len() == 0 {
        return Ok(());
    }
    match policy {
        FailOnCorruptionPolicy::RepairSafeTemporaryFiles => Ok(()),
        FailOnCorruptionPolicy::FailClosed => {
            let message = crate::storage_names::join_names("safe temporary files require explicit repair: ", names);
            Err(Error::Corruption { message })
        },
    }
}

/// Decodes a recovery report from the bytes of its file: they must be
/// UTF-8 text, which is then read as `decode_report` reads it.
pub fn decode_report_bytes(bytes: Vec<u8>) -> (r: Result<RecoveryReport>)
    ensures
        match crate::manifest::utf8_decoded(bytes@) {
            None => r matches Err(e) && e.kind() == ErrorKind::InvalidFormat
                && e.message_view() == "recovery report is not UTF-8"@,
            Some(text) => match report_of_text(text) {
                Ok(files) => r matches Ok(report) && report@ == files,
                Err(message) => r matches Err(e) && e.kind() == ErrorKind::InvalidFormat
                    && e.message_view() == message,
            },
        },
{
    match crate::manifest::text_from_utf8(bytes) {
        None => Err(Error::invalid_format("recovery report is not UTF-8")),
        Some(text) => decode_report(text.as_str()),
    }
}

} // verus!
