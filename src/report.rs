//! Identities of a session's logs and the assembly of a loaded session.
use crate::text::same_text;
use crate::types::JsonLine;
use vstd::prelude::*;
use vstd::string::{StrSliceExecFns, StringExecFns};

verus! {

/// Why a recorded session could not be turned into a profile.
#[derive(Debug)]
pub enum ExportError {
    /// A log's file name is neither `global` nor a process id.
    UnrecognizedFileName { name: String },
    /// The session holds too few records to anchor a timeline.
    NoSamples,
    /// A process has records, but none of them holds a stack trace.
    NoThreads { pid: u32 },
}

/// The identity that owns a log: one process, or the system-wide aggregate.
#[derive(Debug, Clone, Copy, PartialEq, Eq, Structural, Hash)]
pub enum ReportIdentifier {
    Pid(u32),
    Global,
}

pub open spec fn is_decimal_digit(c: char) -> bool {
    '0' as u32 <= c as u32 && c as u32 <= '9' as u32
}

pub open spec fn digit_value(c: char) -> nat {
    (c as u32 - '0' as u32) as nat
}

/// The number that a string of decimal digits denotes.
pub open spec fn decimal_value(s: Seq<char>) -> nat
    decreases s.len(),
{
    if s.len() == 0 {
        0
    } else {
        decimal_value(s.drop_last()) * 10 + digit_value(s.last())
    }
}

/// The digits of an unsigned number as `str::parse` reads it: an optional `+` may lead.
pub open spec fn unsigned_digits(s: Seq<char>) -> Seq<char> {
    if s.len() > 0 && s[0] == '+' {
        s.drop_first()
    } else {
        s
    }
}

/// The `u32` that `s` denotes, if any: one or more decimal digits, optionally after
/// a `+`, whose value fits in 32 bits.
pub open spec fn pid_of(s: Seq<char>) -> Option<u32> {
    let d = unsigned_digits(s);
    if d.len() > 0 && (forall|i: int| 0 <= i < d.len() ==> is_decimal_digit(#[trigger] d[i]))
        && decimal_value(d) <= u32::MAX {
        Some(decimal_value(d) as u32)
    } else {
        None
    }
}

/// Reads a process id written in decimal.
pub fn parse_pid(s: &str) -> (r: Option<u32>)
    ensures
        r == pid_of(s@),
{
    let n = s.unicode_len();
    let mut i: usize = 0;
    if n > 0 && s.get_char(0) == '+' {
        i = 1;
    }
    let start = i;
    let ghost d = unsigned_digits(s@);
    assert(d == s@.subrange(start as int, n as int));
    if start == n {
        return None;
    }
    let cap: u64 = 0x1_0000_0000;
    let mut value: u64 = 0;
    while i < n
        invariant
            start <= i <= n,
            n == s@.len(),
            cap == 0x1_0000_0000u64,
            d == unsigned_digits(s@),
            d == s@.subrange(start as int, n as int),
            forall|k: int| 0 <= k < i - start ==> is_decimal_digit(#[trigger] d[k]),
            value as nat == if decimal_value(d.subrange(0, i - start)) < cap as nat {
                decimal_value(d.subrange(0, i - start))
            } else {
                cap as nat
            },
        decreases n - i,
    {
        let c = s.get_char(i);
        if !('0' as u32 <= c as u32 && c as u32 <= '9' as u32) {
            assert(d[i - start] == c);
            assert(!is_decimal_digit(d[i - start]));
            assert(!(forall|k: int| 0 <= k < d.len() ==> is_decimal_digit(#[trigger] d[k])));
            return None;
        }
        let dv = (c as u32 - '0' as u32) as u64;
        let ghost prev = decimal_value(d.subrange(0, i - start));
        let ghost next = d.subrange(0, i + 1 - start);
        assert(next.drop_last() == d.subrange(0, i - start));
        assert(next.last() == c);
        assert(decimal_value(next) == prev * 10 + dv);
        if value >= cap {
            assert(prev >= cap);
            assert(prev * 10 + dv >= cap) by (nonlinear_arith)
                requires prev >= cap;
        } else {
            assert(value * 10 + dv < 0x10_0000_0000) by (nonlinear_arith)
                requires value < 0x1_0000_0000u64, dv < 10;
            value = value * 10 + dv;
            if value > cap {
                value = cap;
            }
        }
        i = i + 1;
    }
    assert(d.subrange(0, n - start) == d);
    if value >= cap {
        None
    } else {
        Some(value as u32)
    }
}

/// The file name (without extension) of the system-wide log.
pub const GLOBAL_FILE_STEM: &'static str = "global";

/// The identity a log's file name (without extension) names, if any.
pub open spec fn identity_of(stem: Seq<char>) -> Option<ReportIdentifier> {
    if stem == GLOBAL_FILE_STEM@ {
        Some(ReportIdentifier::Global)
    } else {
        match pid_of(stem) {
            Some(pid) => Some(ReportIdentifier::Pid(pid)),
            None => None,
        }
    }
}

/// The identity whose log has the file name `stem` (without extension): `global`
/// for the system-wide log, else a process id.
pub fn report_identifier(stem: &str) -> (r: Result<ReportIdentifier, ExportError>)
    ensures
        identity_of(stem@) matches Some(id) ==> r == Ok::<ReportIdentifier, ExportError>(id),
        identity_of(stem@) is None ==> (r matches Err(ExportError::UnrecognizedFileName { name })
            && name@ == stem@),
{
    if same_text(stem, GLOBAL_FILE_STEM) {
        Ok(ReportIdentifier::Global)
    } else {
        match parse_pid(stem) {
            Some(pid) => Ok(ReportIdentifier::Pid(pid)),
            None => Err(ExportError::UnrecognizedFileName { name: stem.to_owned() }),
        }
    }
}

/// A loaded session: the records of each identity, in the order they were written.
pub struct Report {
    /// The processes' logs, by strictly ascending process id.
    pub processes: Vec<(u32, Vec<JsonLine>)>,
    /// The system-wide log, if the session has one.
    pub global: Option<Vec<JsonLine>>,
}

/// Strictly ascending process ids.
pub open spec fn pids_ascending(entries: Seq<(u32, Vec<JsonLine>)>) -> bool {
    forall|a: int, b: int| 0 <= a < b < entries.len() ==> (#[trigger] entries[a]).0 < (#[trigger] entries[b]).0
}

/// The records that the last file named for `id` holds, if any file is.
pub open spec fn lines_for(files: Seq<(String, Vec<JsonLine>)>, id: ReportIdentifier) -> Option<Seq<JsonLine>>
    decreases files.len(),
{
    if files.len() == 0 {
        None
    } else if identity_of(files.last().0@) == Some(id) {
        Some(files.last().1@)
    } else {
        lines_for(files.drop_last(), id)
    }
}

/// Whether every file name (without extension) names an identity.
pub open spec fn all_named(files: Seq<(String, Vec<JsonLine>)>) -> bool {
    forall|a: int| 0 <= a < files.len() ==> identity_of((#[trigger] files[a]).0@) is Some
}

/// The log at `a` is the first whose file name names no identity.
pub open spec fn is_first_unnamed(files: Seq<(String, Vec<JsonLine>)>, a: int) -> bool {
    &&& 0 <= a < files.len()
    &&& identity_of(files[a].0@) is None
    &&& all_named(files.subrange(0, a))
}

/// Assembles a session from its logs, each given by its file name (without extension)
/// and its records. A later log of the same identity replaces an earlier one.
pub fn read_report(files: Vec<(String, Vec<JsonLine>)>) -> (r: Result<Report, ExportError>)
    ensures
        r is Ok <==> all_named(files@),
        r matches Err(e) ==> (e matches ExportError::UnrecognizedFileName { name } && exists|a: int|
            is_first_unnamed(files@, a) && (#[trigger] files@[a]).0@ == name@),
        r matches Ok(report) ==> report.well_formed() && forall|id: ReportIdentifier|
            #[trigger] report.lines_of(id) == lines_for(files@, id),
{
    let n = files.len();
    let mut ids: Vec<ReportIdentifier> = Vec::new();
    let mut k: usize = 0;
    while k < n
        invariant
            n == files@.len(),
            k <= n,
            ids@.len() == k,
            forall|a: int| 0 <= a < k ==> identity_of((#[trigger] files@[a]).0@) == Some(ids@[a]),
        decreases n - k,
    {
        match report_identifier(files[k].0.as_str()) {
            Ok(id) => ids.push(id),
            Err(e) => {
                proof {
                    assert forall|a: int| 0 <= a < k implies identity_of(
                        (#[trigger] files@.subrange(0, k as int)[a]).0@,
                    ) is Some by {
                        assert(files@.subrange(0, k as int)[a] == files@[a]);
                    }
                    assert(is_first_unnamed(files@, k as int));
                }
                return Err(e);
            },
        }
        k = k + 1;
    }
    let ghost all = files@;
    let mut rest = files;
    let mut report = Report::new();
    k = 0;
    while k < n
        invariant
            n == all.len(),
            k <= n,
            ids@.len() == n,
            forall|a: int| 0 <= a < n ==> identity_of((#[trigger] all[a]).0@) == Some(ids@[a]),
            rest@ == all.subrange(k as int, n as int),
            report.well_formed(),
            forall|id: ReportIdentifier|
                #[trigger] report.lines_of(id) == lines_for(all.subrange(0, k as int), id),
        decreases n - k,
    {
        let (stem, lines) = rest.remove(0);
        assert(all[k as int] == (stem, lines));
        let ghost prefix = all.subrange(0, k + 1);
        assert(prefix.drop_last() =~= all.subrange(0, k as int));
        assert(prefix.last() == (stem, lines));
        report.insert(ids[k], lines);
        assert forall|id2: ReportIdentifier| #[trigger]
            report.lines_of(id2) == lines_for(prefix, id2) by {}
        assert(rest@ =~= all.subrange(k + 1, n as int));
        k = k + 1;
    }
    assert(all.subrange(0, n as int) =~= all);
    Ok(report)
}

impl Report {
    pub open spec fn well_formed(&self) -> bool {
        pids_ascending(self.processes@)
    }

    /// The records of identity `id`, if the session has its log.
    pub open spec fn lines_of(&self, id: ReportIdentifier) -> Option<Seq<JsonLine>> {
        match id {
            ReportIdentifier::Global => match self.global {
                Some(lines) => Some(lines@),
                None => None,
            },
            ReportIdentifier::Pid(pid) => if exists|a: int|
                0 <= a < self.processes@.len() && (#[trigger] self.processes@[a]).0 == pid {
                let a = choose|a: int|
                    0 <= a < self.processes@.len() && (#[trigger] self.processes@[a]).0 == pid;
                Some(self.processes@[a].1@)
            } else {
                None
            },
        }
    }

    /// An empty session.
    pub fn new() -> (r: Report)
        ensures
            r.well_formed(),
            forall|id: ReportIdentifier| r.lines_of(id) is None,
    {
        Report { processes: Vec::new(), global: None }
    }

    /// Sets the records of identity `id`, replacing any it had.
    pub fn insert(&mut self, id: ReportIdentifier, lines: Vec<JsonLine>)
        requires
            old(self).well_formed(),
        ensures
            final(self).well_formed(),
            final(self).lines_of(id) == Some(lines@),
            forall|other: ReportIdentifier| other != id ==> final(self).lines_of(other) == old(self).lines_of(other),
    {
        match id {
            ReportIdentifier::Global => {
                self.global = Some(lines);
            },
            ReportIdentifier::Pid(pid) => {
                let ghost before = self.processes@;
                let mut a: usize = 0;
                while a < self.processes.len() && self.processes[a].0 < pid
                    invariant
                        a <= self.processes@.len(),
                        self.processes@ == before,
                        pids_ascending(before),
                        forall|b: int| 0 <= b < a ==> (#[trigger] before[b]).0 < pid,
                    decreases self.processes@.len() - a,
                {
                    a = a + 1;
                }
                if a < self.processes.len() && self.processes[a].0 == pid {
                    self.processes.set(a, (pid, lines));
                    proof {
                        let after = self.processes@;
                        assert forall|other: ReportIdentifier| other != id implies self.lines_of(other)
                            == old(self).lines_of(other) by {
                            if let ReportIdentifier::Pid(q) = other {
                                assert forall|b: int| 0 <= b < after.len() implies ((#[trigger] after[b]).0 == q
                                    <==> before[b].0 == q) by {
                                    if b != a {
                                        assert(after[b] == before[b]);
                                    }
                                }
                                if exists|b: int| 0 <= b < after.len() && (#[trigger] after[b]).0 == q {
                                    let b1 = choose|b: int| 0 <= b < after.len() && (#[trigger] after[b]).0 == q;
                                    assert(before[b1].0 == q);
                                    let b2 = choose|b: int| 0 <= b < before.len() && (#[trigger] before[b]).0 == q;
                                    assert(b1 == b2);
                                    assert(after[b1] == before[b1]);
                                }
                                if exists|b: int| 0 <= b < before.len() && (#[trigger] before[b]).0 == q {
                                    let b2 = choose|b: int| 0 <= b < before.len() && (#[trigger] before[b]).0 == q;
                                    assert(after[b2].0 == q);
                                }
                            }
                        }
                        assert(self.processes@[a as int].0 == pid);
                    }
                } else {
                    self.processes.insert(a, (pid, lines));
                    proof {
                        let after = self.processes@;
                        assert(after[a as int].0 == pid);
                        assert forall|b: int| 0 <= b < after.len() implies (#[trigger] after[b]) == if b < a {
                            before[b]
                        } else if b == a {
                            (pid, lines)
                        } else {
                            before[b - 1]
                        } by {}
                        assert forall|other: ReportIdentifier| other != id implies self.lines_of(other)
                            == old(self).lines_of(other) by {
                            if let ReportIdentifier::Pid(q) = other {
                                if exists|b: int| 0 <= b < after.len() && (#[trigger] after[b]).0 == q {
                                    let b1 = choose|b: int| 0 <= b < after.len() && (#[trigger] after[b]).0 == q;
                                    let b0 = if b1 < a { b1 } else { b1 - 1 };
                                    assert(before[b0].0 == q);
                                    let b2 = choose|b: int| 0 <= b < before.len() && (#[trigger] before[b]).0 == q;
                                    assert(b0 == b2);
                                }
                                if exists|b: int| 0 <= b < before.len() && (#[trigger] before[b]).0 == q {
                                    let b2 = choose|b: int| 0 <= b < before.len() && (#[trigger] before[b]).0 == q;
                                    let b1 = if b2 < a { b2 } else { b2 + 1 };
                                    assert(after[b1].0 == q);
                                }
                            }
                        }
                    }
                }
            },
        }
    }
}

/// The decimal digits, in order of value.
pub const DECIMAL_DIGITS: &'static str = "0123456789";

/// The decimal form of `n`: its digits, most significant first, without leading zeros.
pub open spec fn decimal_text(n: nat) -> Seq<char>
    decreases n,
{
    if n < 10 {
        seq![DECIMAL_DIGITS@[n as int]]
    } else {
        decimal_text(n / 10).push(DECIMAL_DIGITS@[(n % 10) as int])
    }
}

/// The file name (without extension) of an identity's log.
pub open spec fn file_stem_of(id: ReportIdentifier) -> Seq<char> {
    match id {
        ReportIdentifier::Global => GLOBAL_FILE_STEM@,
        ReportIdentifier::Pid(pid) => decimal_text(pid as nat),
    }
}

proof fn lemma_decimal_text_value(n: nat)
    ensures
        decimal_text(n).len() > 0,
        forall|i: int| 0 <= i < decimal_text(n).len() ==> is_decimal_digit(#[trigger] decimal_text(n)[i]),
        decimal_value(decimal_text(n)) == n,
    decreases n,
{
    reveal_strlit("0123456789");
    assert(forall|d: int|
        0 <= d < 10 ==> is_decimal_digit(#[trigger] DECIMAL_DIGITS@[d]) && digit_value(DECIMAL_DIGITS@[d]) == d);
    let t = decimal_text(n);
    if n < 10 {
        assert(t.drop_last() =~= Seq::<char>::empty());
        assert(digit_value(DECIMAL_DIGITS@[n as int]) == n);
        assert(decimal_value(t) == decimal_value(t.drop_last()) * 10 + digit_value(t.last()));
    } else {
        assert(digit_value(DECIMAL_DIGITS@[(n % 10) as int]) == n % 10);
        lemma_decimal_text_value(n / 10);
        assert(t.drop_last() =~= decimal_text(n / 10));
        assert(t.last() == DECIMAL_DIGITS@[(n % 10) as int]);
        assert((n / 10) * 10 + n % 10 == n) by (nonlinear_arith);
        assert(decimal_value(t) == decimal_value(t.drop_last()) * 10 + digit_value(t.last()));
        assert forall|i: int| 0 <= i < t.len() implies is_decimal_digit(#[trigger] t[i]) by {
            if i < t.len() - 1 {
                assert(t[i] == decimal_text(n / 10)[i]);
            }
        }
    }
}

/// A log written under an identity's file name reads back as that identity.
pub proof fn lemma_file_stem_round_trip(id: ReportIdentifier)
    ensures
        identity_of(file_stem_of(id)) == Some(id),
{
    reveal_strlit("global");
    if let ReportIdentifier::Pid(pid) = id {
        let t = decimal_text(pid as nat);
        lemma_decimal_text_value(pid as nat);
        assert(is_decimal_digit(t[0]));
        assert(t != GLOBAL_FILE_STEM@) by {
            if t.len() == GLOBAL_FILE_STEM@.len() {
                assert(!is_decimal_digit(GLOBAL_FILE_STEM@[0]));
            }
        }
        assert(unsigned_digits(t) == t);
    }
}

fn append_decimal(out: &mut String, n: u32)
    ensures
        final(out)@ == old(out)@ + decimal_text(n as nat),
    decreases n,
{
    if n >= 10 {
        append_decimal(out, n / 10);
    }
    let d = (n % 10) as usize;
    proof {
        reveal_strlit("0123456789");
    }
    let digit = DECIMAL_DIGITS.substring_char(d, d + 1);
    let ghost before = out@;
    out.append(digit);
    proof {
        assert(digit@ =~= seq![DECIMAL_DIGITS@[d as int]]);
        if n < 10 {
            assert(decimal_text(n as nat) =~= seq![DECIMAL_DIGITS@[n as int]]);
            assert(out@ =~= old(out)@ + decimal_text(n as nat));
        } else {
            assert(out@ =~= old(out)@ + decimal_text(n as nat));
        }
    }
}

/// The file name (without extension) of an identity's log: `global` for the
/// system-wide log, else the process id in decimal.
pub fn file_stem(id: ReportIdentifier) -> (r: String)
    ensures
        r@ == file_stem_of(id),
{
    match id {
        ReportIdentifier::Global => GLOBAL_FILE_STEM.to_owned(),
        ReportIdentifier::Pid(pid) => {
            let mut out = String::new();
            append_decimal(&mut out, pid);
            assert(out@ =~= decimal_text(pid as nat));
            out
        },
    }
}

/// The pieces of `s` between newlines (`s` itself if it has none; an empty piece
/// after a final newline).
pub open spec fn newline_pieces(s: Seq<u8>) -> Seq<Seq<u8>>
    decreases s.len(),
{
    if s.len() == 0 {
        seq![Seq::empty()]
    } else if s.last() == 10 {
        newline_pieces(s.drop_last()).push(Seq::empty())
    } else {
        let pieces = newline_pieces(s.drop_last());
        pieces.update(pieces.len() - 1, pieces.last().push(s.last()))
    }
}

proof fn lemma_newline_pieces_nonempty(s: Seq<u8>)
    ensures
        newline_pieces(s).len() > 0,
    decreases s.len(),
{
    if s.len() > 0 {
        lemma_newline_pieces_nonempty(s.drop_last());
    }
}

/// The lines of a log: the pieces between newlines, the line ending of the last
/// record being optional.
pub open spec fn log_lines(s: Seq<u8>) -> Seq<Seq<u8>> {
    let pieces = newline_pieces(s);
    if pieces.last().len() == 0 {
        pieces.drop_last()
    } else {
        pieces
    }
}

/// Splits a log's bytes into its lines, one record per line.
pub fn split_lines(content: &Vec<u8>) -> (r: Vec<Vec<u8>>)
    ensures
        r@.map_values(|line: Vec<u8>| line@) == log_lines(content@),
{
    let mut done: Vec<Vec<u8>> = Vec::new();
    let mut current: Vec<u8> = Vec::new();
    let mut k: usize = 0;
    while k < content.len()
        invariant
            k <= content@.len(),
            done@.map_values(|line: Vec<u8>| line@).push(current@) == newline_pieces(
                content@.subrange(0, k as int),
            ),
        decreases content@.len() - k,
    {
        let ghost prefix = content@.subrange(0, k + 1);
        assert(prefix.drop_last() =~= content@.subrange(0, k as int));
        proof {
            lemma_newline_pieces_nonempty(content@.subrange(0, k as int));
        }
        let b = content[k];
        let ghost before = done@.map_values(|line: Vec<u8>| line@);
        if b == 10 {
            let finished = current;
            current = Vec::new();
            let ghost piece = finished@;
            done.push(finished);
            assert(done@.map_values(|line: Vec<u8>| line@) =~= before.push(piece));
        } else {
            current.push(b);
        }
        assert(done@.map_values(|line: Vec<u8>| line@).push(current@) =~= newline_pieces(prefix));
        k = k + 1;
    }
    assert(content@.subrange(0, k as int) =~= content@);
    let ghost pieces = newline_pieces(content@);
    let ghost finished = done@.map_values(|line: Vec<u8>| line@);
    assert(pieces.drop_last() =~= finished);
    if current.len() > 0 {
        done.push(current);
        assert(done@.map_values(|line: Vec<u8>| line@) =~= pieces);
    }
    done
}

} // verus!
