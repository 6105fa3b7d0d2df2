//! Linux-specific pid ceiling, validation and snapshot-record filtering.

use vstd::prelude::*;

use crate::types::{Error, ProcessId, ProcessInfo};

verus! {

/// The highest pid Linux will hand out (0x400000; in decimal, 4194304).
pub const AVAILABLE_MAX_PROCESS_ID: u32 = 0x0040_0000;

/// Rejects the kernel and init pids and any pid above the Linux ceiling.
pub fn validate_process_id(process_id: u32) -> (r: Result<(), Error>)
    ensures
        r is Ok <==> crate::unix::validate_ok(process_id, AVAILABLE_MAX_PROCESS_ID),
        r matches Err(e) ==> (e matches Error::InvalidProcessId { process_id: p, reason } && p
            == process_id && reason@ == crate::unix::validate_reason(
            process_id,
            AVAILABLE_MAX_PROCESS_ID,
        )),
{
    crate::unix::validate_process_id(process_id, AVAILABLE_MAX_PROCESS_ID)
}

/// Linux snapshots carry no self-parented bookkeeping entries, so no record is
/// dropped from the child index.
pub fn child_process_id_map_filter(process_info: &ProcessInfo) -> (r: bool)
    ensures
        r == false,
{
    let _ = process_info;
    false
}

/// The whitespace characters that separate the fields of a status line.
pub open spec fn is_field_whitespace(c: char) -> bool {
    c == ' ' || c == '\t' || c == '\n' || c == '\r' || c == '\u{b}' || c == '\u{c}'
}

/// The position of the first newline at or after `i`, or the length of `s` if
/// there is none.
pub open spec fn first_newline_from(s: Seq<char>, i: int) -> int
    decreases s.len() - i,
{
    if i < 0 || i >= s.len() {
        s.len() as int
    } else if s[i] == '\n' {
        i
    } else {
        first_newline_from(s, i + 1)
    }
}

pub proof fn lemma_first_newline_from_bounds(s: Seq<char>, i: int)
    requires
        0 <= i <= s.len(),
    ensures
        i <= first_newline_from(s, i) <= s.len(),
        forall |k: int| i <= k < first_newline_from(s, i) ==> s[k] != '\n',
        first_newline_from(s, i) < s.len() ==> s[first_newline_from(s, i)] == '\n',
    decreases s.len() - i,
{
    if i < s.len() && s[i] != '\n' {
        lemma_first_newline_from_bounds(s, i + 1);
    }
}

/// A line with a trailing carriage return stripped.
pub open spec fn strip_cr(line: Seq<char>) -> Seq<char> {
    if line.len() > 0 && line.last() == '\r' {
        line.drop_last()
    } else {
        line
    }
}

/// The lines of `s` from position `start` on: split at newlines, each line
/// with a trailing carriage return stripped, the trailing empty piece after a
/// final newline dropped.
pub open spec fn lines_from(s: Seq<char>, start: int) -> Seq<Seq<char>>
    decreases s.len() - start,
    via lines_from_dec
{
    if start < 0 || start >= s.len() {
        Seq::<Seq<char>>::empty()
    } else {
        let k = first_newline_from(s, start);
        if k >= s.len() {
            seq![s.subrange(start, s.len() as int)]
        } else {
            seq![strip_cr(s.subrange(start, k))] + lines_from(s, k + 1)
        }
    }
}

#[via_fn]
proof fn lines_from_dec(s: Seq<char>, start: int) {
    if !(start < 0 || start >= s.len()) {
        lemma_first_newline_from_bounds(s, start);
    }
}

/// The lines of a status text.
pub open spec fn lines_of(s: Seq<char>) -> Seq<Seq<char>> {
    lines_from(s, 0)
}

/// Whether `s` starts with `prefix`.
pub open spec fn starts_with(s: Seq<char>, prefix: Seq<char>) -> bool {
    s.len() >= prefix.len() && s.subrange(0, prefix.len() as int) == prefix
}

/// The position of the first non-whitespace character at or after `i`, or the
/// length of `line` if there is none.
pub open spec fn skip_ws_from(line: Seq<char>, i: int) -> int
    decreases line.len() - i,
{
    if i < 0 || i >= line.len() {
        line.len() as int
    } else if is_field_whitespace(line[i]) {
        skip_ws_from(line, i + 1)
    } else {
        i
    }
}

pub proof fn lemma_skip_ws_from_bounds(line: Seq<char>, i: int)
    requires
        0 <= i <= line.len(),
    ensures
        i <= skip_ws_from(line, i) <= line.len(),
        forall |k: int| i <= k < skip_ws_from(line, i) ==> is_field_whitespace(line[k]),
        skip_ws_from(line, i) < line.len() ==> !is_field_whitespace(
            line[skip_ws_from(line, i)],
        ),
    decreases line.len() - i,
{
    if i < line.len() && is_field_whitespace(line[i]) {
        lemma_skip_ws_from_bounds(line, i + 1);
    }
}

/// The position of the first whitespace character at or after `i`, or the
/// length of `line` if there is none.
pub open spec fn token_end_from(line: Seq<char>, i: int) -> int
    decreases line.len() - i,
{
    if i < 0 || i >= line.len() {
        line.len() as int
    } else if is_field_whitespace(line[i]) {
        i
    } else {
        token_end_from(line, i + 1)
    }
}

pub proof fn lemma_token_end_from_bounds(line: Seq<char>, i: int)
    requires
        0 <= i <= line.len(),
    ensures
        i <= token_end_from(line, i) <= line.len(),
        forall |k: int| i <= k < token_end_from(line, i) ==> !is_field_whitespace(line[k]),
        token_end_from(line, i) < line.len() ==> is_field_whitespace(
            line[token_end_from(line, i)],
        ),
    decreases line.len() - i,
{
    if i < line.len() && !is_field_whitespace(line[i]) {
        lemma_token_end_from_bounds(line, i + 1);
    }
}

/// The second whitespace-separated field of the line, if the line has one.
pub open spec fn second_token(line: Seq<char>) -> Option<Seq<char>> {
    let first_start = skip_ws_from(line, 0);
    if first_start >= line.len() {
        None
    } else {
        let first_end = token_end_from(line, first_start);
        let second_start = skip_ws_from(line, first_end);
        if second_start >= line.len() {
            None
        } else {
            Some(line.subrange(second_start, token_end_from(line, second_start)))
        }
    }
}

/// Whether `c` is a decimal digit.
pub open spec fn is_dec_digit(c: char) -> bool {
    48 <= c as u32 <= 57
}

/// The numeric value of a sequence of decimal digits, most significant first.
pub open spec fn dec_value(digits: Seq<char>) -> int
    decreases digits.len(),
{
    if digits.len() == 0 {
        0
    } else {
        dec_value(digits.drop_last()) * 10 + (digits.last() as u32 - 48)
    }
}

/// Whether every character of the sequence is a decimal digit.
pub open spec fn all_dec_digits(digits: Seq<char>) -> bool {
    forall |i: int| 0 <= i < digits.len() ==> is_dec_digit(#[trigger] digits[i])
}

/// A field with an optional leading plus sign removed.
pub open spec fn plus_stripped(t: Seq<char>) -> Seq<char> {
    if t.len() > 0 && t[0] == '+' {
        t.drop_first()
    } else {
        t
    }
}

/// What parsing a decimal `u32` field yields: an optional leading plus sign,
/// then at least one digit, and a value that fits in 32 bits; anything else
/// fails.
pub open spec fn parse_u32_spec(t: Seq<char>) -> Option<u32> {
    let digits = plus_stripped(t);
    if digits.len() == 0 || !all_dec_digits(digits) {
        None
    } else if dec_value(digits) > u32::MAX {
        None
    } else {
        Some(dec_value(digits) as u32)
    }
}

/// What one scan of the status lines yields: the parent pid and the name once
/// both fields are found, or the reason the scan fails.
pub enum StatusScan {
    Parsed { parent_process_id: u32, name: Seq<char> },
    Invalid { reason: Seq<char> },
}

/// The scan of a status text, line by line, exactly as the parser works: the
/// first field of a "PPid:"-led line must be a decimal pid, the first field
/// of a "Name:"-led line is the name, later occurrences overwrite earlier
/// ones, the scan stops as soon as both are known, and a missing field at the
/// end fails the whole record.
pub open spec fn scan_status_lines(
    lines: Seq<Seq<char>>,
    ppid: Option<u32>,
    name: Option<Seq<char>>,
) -> StatusScan
    decreases lines.len(),
{
    if ppid is Some && name is Some {
        StatusScan::Parsed { parent_process_id: ppid->0, name: name->0 }
    } else if lines.len() == 0 {
        if ppid is None {
            StatusScan::Invalid { reason: "Parent process id is None"@ }
        } else {
            StatusScan::Invalid { reason: "Name is None"@ }
        }
    } else {
        let line = lines[0];
        if starts_with(line, "PPid:"@) {
            match second_token(line) {
                Option::None => StatusScan::Invalid { reason: "PPid line is invalid"@ },
                Option::Some(tok) => match parse_u32_spec(tok) {
                    Option::None => StatusScan::Invalid {
                        reason: "Failed to parse parent process id"@,
                    },
                    Option::Some(v) => scan_status_lines(lines.drop_first(), Some(v), name),
                },
            }
        } else if starts_with(line, "Name:"@) {
            match second_token(line) {
                Option::None => StatusScan::Invalid { reason: "Name line is invalid"@ },
                Option::Some(tok) => scan_status_lines(lines.drop_first(), ppid, Some(tok)),
            }
        } else {
            scan_status_lines(lines.drop_first(), ppid, name)
        }
    }
}

/// What parsing a whole status text yields.
pub open spec fn parse_status_spec(status: Seq<char>) -> StatusScan {
    scan_status_lines(lines_of(status), None, None)
}

/// The position of the first newline at or after `start`, or `n` if there is
/// none.
fn find_newline(status: &str, start: usize, n: usize) -> (k: usize)
    requires
        n == status@.len(),
        start <= n,
    ensures
        k as int == first_newline_from(status@, start as int),
        start <= k <= n,
{
    let mut i = start;
    while i < n
        invariant
            start <= i <= n,
            n == status@.len(),
            first_newline_from(status@, start as int) == first_newline_from(status@, i as int),
        decreases n - i,
    {
        if status.get_char(i) == '\n' {
            proof {
                lemma_first_newline_from_bounds(status@, start as int);
            }
            return i;
        }
        assert(first_newline_from(status@, i as int) == first_newline_from(
            status@,
            i as int + 1,
        ));
        i += 1;
    }
    proof {
        lemma_first_newline_from_bounds(status@, start as int);
    }
    n
}

/// Whether `line` starts with `prefix`.
fn has_prefix(line: &str, prefix: &str) -> (r: bool)
    ensures
        r == starts_with(line@, prefix@),
{
    let n = line.unicode_len();
    let p = prefix.unicode_len();
    if n < p {
        return false;
    }
    let mut i: usize = 0;
    while i < p
        invariant
            i <= p,
            p <= n,
            n == line@.len(),
            p == prefix@.len(),
            forall |k: int| 0 <= k < i ==> line@[k] == prefix@[k],
        decreases p - i,
    {
        if line.get_char(i) != prefix.get_char(i) {
            assert(!starts_with(line@, prefix@)) by {
                if starts_with(line@, prefix@) {
                    assert(line@.subrange(0, p as int)[i as int] == prefix@[i as int]);
                }
            }
            return false;
        }
        i += 1;
    }
    assert(line@.subrange(0, p as int) =~= prefix@);
    true
}

/// Whether `c` separates fields of a status line.
fn is_field_whitespace_char(c: char) -> (r: bool)
    ensures
        r == is_field_whitespace(c),
{
    c == ' ' || c == '\t' || c == '\n' || c == '\r' || c == '\u{b}' || c == '\u{c}'
}

/// The position of the first non-whitespace character at or after `start`.
fn skip_ws(line: &str, start: usize, n: usize) -> (k: usize)
    requires
        n == line@.len(),
        start <= n,
    ensures
        k as int == skip_ws_from(line@, start as int),
        start <= k <= n,
{
    let mut i = start;
    while i < n
        invariant
            start <= i <= n,
            n == line@.len(),
            skip_ws_from(line@, start as int) == skip_ws_from(line@, i as int),
        decreases n - i,
    {
        if !is_field_whitespace_char(line.get_char(i)) {
            proof {
                lemma_skip_ws_from_bounds(line@, start as int);
            }
            return i;
        }
        assert(skip_ws_from(line@, i as int) == skip_ws_from(line@, i as int + 1));
        i += 1;
    }
    proof {
        lemma_skip_ws_from_bounds(line@, start as int);
    }
    n
}

/// The position of the first whitespace character at or after `start`.
fn token_end(line: &str, start: usize, n: usize) -> (k: usize)
    requires
        n == line@.len(),
        start <= n,
    ensures
        k as int == token_end_from(line@, start as int),
        start <= k <= n,
{
    let mut i = start;
    while i < n
        invariant
            start <= i <= n,
            n == line@.len(),
            token_end_from(line@, start as int) == token_end_from(line@, i as int),
        decreases n - i,
    {
        if is_field_whitespace_char(line.get_char(i)) {
            proof {
                lemma_token_end_from_bounds(line@, start as int);
            }
            return i;
        }
        assert(token_end_from(line@, i as int) == token_end_from(line@, i as int + 1));
        i += 1;
    }
    proof {
        lemma_token_end_from_bounds(line@, start as int);
    }
    n
}

/// The value of an all-digit sequence is nonnegative.
proof fn lemma_dec_value_nonneg(digits: Seq<char>)
    requires
        forall |k: int| 0 <= k < digits.len() ==> is_dec_digit(#[trigger] digits[k]),
    ensures
        dec_value(digits) >= 0,
    decreases digits.len(),
{
    if digits.len() > 0 {
        lemma_dec_value_nonneg(digits.drop_last());
    }
}

/// The value of an all-digit sequence is at least the value of any prefix.
proof fn lemma_dec_value_prefix_le(digits: Seq<char>, j: int)
    requires
        0 <= j <= digits.len(),
        forall |k: int| 0 <= k < digits.len() ==> is_dec_digit(#[trigger] digits[k]),
    ensures
        0 <= dec_value(digits.take(j)) <= dec_value(digits),
    decreases digits.len() - j,
{
    assert forall |k: int| 0 <= k < digits.take(j).len() implies is_dec_digit(
        #[trigger] digits.take(j)[k],
    ) by {
        assert(digits.take(j)[k] == digits[k]);
    }
    lemma_dec_value_nonneg(digits.take(j));
    if j == digits.len() {
        assert(digits.take(j) =~= digits);
    } else {
        assert(digits.take(j + 1).drop_last() =~= digits.take(j));
        assert(dec_value(digits.take(j + 1)) == dec_value(digits.take(j)) * 10 + (digits[j] as u32
            - 48));
        lemma_dec_value_prefix_le(digits, j + 1);
    }
}

/// Parses a decimal `u32` field, exactly as `parse_u32_spec` says: an
/// optional leading plus sign, then at least one digit, value within 32 bits.
fn parse_u32_token(token: &str) -> (r: Option<u32>)
    ensures
        r == parse_u32_spec(token@),
{
    let n = token.unicode_len();
    let start: usize = if n > 0 && token.get_char(0) == '+' {
        1
    } else {
        0
    };
    let ghost digits = plus_stripped(token@);
    assert(digits =~= token@.subrange(start as int, n as int));
    if start == n {
        return None;
    }
    let mut value: u32 = 0;
    let mut j = start;
    while j < n
        invariant
            start <= j <= n,
            start < n,
            n == token@.len(),
            start == 1 ==> token@.len() > 0 && token@[0] == '+',
            start == 0 ==> !(token@.len() > 0 && token@[0] == '+'),
            digits == plus_stripped(token@),
            digits =~= token@.subrange(start as int, n as int),
            forall |k: int| start <= k < j ==> is_dec_digit(#[trigger] token@[k]),
            value == dec_value(token@.subrange(start as int, j as int)),
        decreases n - j,
    {
        let c = token.get_char(j);
        let d = c as u32;
        if d < 48 || d > 57 {
            proof {
                assert(!all_dec_digits(digits)) by {
                    assert(0 <= j - start < digits.len() && !is_dec_digit(digits[j - start]));
                }
                assert(parse_u32_spec(token@) is None);
            }
            return None;
        }
        let dd = d - 48;
        assert(token@.subrange(start as int, j as int + 1).drop_last() =~= token@.subrange(
            start as int,
            j as int,
        ));
        assert(dec_value(token@.subrange(start as int, j as int + 1)) == value * 10 + dd);
        if value > (u32::MAX - dd) / 10 {
            proof {
                if all_dec_digits(digits) {
                    assert forall |k: int|
                        0 <= k < digits.take(j - start + 1).len() implies is_dec_digit(
                        #[trigger] digits.take(j - start + 1)[k],
                    ) by {
                        assert(digits.take(j - start + 1)[k] == digits[k]);
                    }
                    assert(digits.take(j - start + 1) =~= token@.subrange(
                        start as int,
                        j as int + 1,
                    ));
                    lemma_dec_value_prefix_le(digits, j - start + 1);
                    assert(value * 10 + dd > u32::MAX) by {
                        assert(value >= (u32::MAX - dd) / 10 + 1);
                        assert(u32::MAX - dd < 10 * ((u32::MAX - dd) / 10) + 10) by (nonlinear_arith);
                        assert(value * 10 >= ((u32::MAX - dd) / 10 + 1) * 10) by (nonlinear_arith)
                            requires value >= (u32::MAX - dd) / 10 + 1;
                    }
                    assert(dec_value(digits.take(j - start + 1)) > u32::MAX);
                    assert(dec_value(digits) > u32::MAX);
                    assert(parse_u32_spec(token@) is None);
                } else {
                    assert(parse_u32_spec(token@) is None);
                }
            }
            return None;
        }
        assert(value * 10 + dd <= u32::MAX) by {
            assert(value <= (u32::MAX - dd) / 10);
            assert(10 * ((u32::MAX - dd) / 10) <= u32::MAX - dd);
        }
        value = value * 10 + dd;
        j += 1;
    }
    assert(token@.subrange(start as int, n as int) =~= digits);
    assert(all_dec_digits(digits)) by {
        assert forall |k: int| 0 <= k < digits.len() implies is_dec_digit(
            #[trigger] digits[k],
        ) by {
            assert(digits[k] == token@[k + start]);
        }
    }
    assert(dec_value(digits) == value);
    Some(value)
}

/// The second whitespace-separated field of the line, if it has one.
fn second_token_of(line: &str) -> (r: Option<String>)
    ensures
        match r {
            Some(t) => second_token(line@) == Some(t@),
            None => second_token(line@) is None,
        },
{
    let n = line.unicode_len();
    let first_start = skip_ws(line, 0, n);
    if first_start >= n {
        return None;
    }
    let first_end = token_end(line, first_start, n);
    let second_start = skip_ws(line, first_end, n);
    if second_start >= n {
        return None;
    }
    let second_end = token_end(line, second_start, n);
    let tok = line.substring_char(second_start, second_end);
    Some(String::from_str(tok))
}


/// The view of an optional owned name.
pub open spec fn opt_string_view(name: Option<String>) -> Option<Seq<char>> {
    match name {
        Option::Some(s) => Some(s@),
        Option::None => None,
    }
}

/// Parses one record of the process directory: scans the status text line by
/// line for the "PPid:" and "Name:" fields, exactly as `parse_status_spec`
/// says, and reports a malformed record as an `InvalidProcEntry` carrying the
/// given path and the reason the scan failed.
pub fn parse_status(process_id: ProcessId, status_path: String, status: &str) -> (r: Result<
    ProcessInfo,
    Error,
>)
    ensures
        match parse_status_spec(status@) {
            StatusScan::Parsed { parent_process_id, name } => r matches Ok(info)
                && info.process_id == process_id && info.parent_process_id == parent_process_id
                && info.name@ == name,
            StatusScan::Invalid { reason } => r matches Err(Error::InvalidProcEntry {
                process_id: p,
                path,
                reason: why,
            }) && p == process_id && path@ == status_path@ && why@ == reason,
        },
{
    let n = status.unicode_len();
    let mut pos: usize = 0;
    let mut parent_process_id: Option<u32> = None;
    let mut name: Option<String> = None;
    while pos < n && !(parent_process_id.is_some() && name.is_some())
        invariant
            pos <= n,
            n == status@.len(),
            scan_status_lines(lines_of(status@), None, None) == scan_status_lines(
                lines_from(status@, pos as int),
                parent_process_id,
                opt_string_view(name),
            ),
        decreases n - pos,
    {
        proof {
            lemma_first_newline_from_bounds(status@, pos as int);
        }
        let k = find_newline(status, pos, n);
        let line_end = if k < n && k > pos && status.get_char(k - 1) == '\r' {
            k - 1
        } else {
            k
        };
        let line = status.substring_char(pos, line_end);
        let new_pos = if k < n {
            k + 1
        } else {
            n
        };
        let ghost cur = lines_from(status@, pos as int);
        proof {
            if k < n {
                assert(strip_cr(status@.subrange(pos as int, k as int)) =~= status@.subrange(
                    pos as int,
                    line_end as int,
                ));
            } else {
                assert(lines_from(status@, new_pos as int) =~= Seq::<Seq<char>>::empty());
            }
            assert(cur.len() >= 1);
            assert(cur[0] == line@);
            assert(cur.drop_first() =~= lines_from(status@, new_pos as int));
        }
        if has_prefix(line, "PPid:") {
            match second_token_of(line) {
                Option::None => {
                    return Err(
                        Error::InvalidProcEntry {
                            process_id,
                            path: status_path,
                            reason: String::from_str("PPid line is invalid"),
                        },
                    );
                },
                Option::Some(tok) => {
                    match parse_u32_token(tok.as_str()) {
                        Option::None => {
                            return Err(
                                Error::InvalidProcEntry {
                                    process_id,
                                    path: status_path,
                                    reason: String::from_str("Failed to parse parent process id"),
                                },
                            );
                        },
                        Option::Some(v) => {
                            parent_process_id = Some(v);
                        },
                    }
                },
            }
        } else if has_prefix(line, "Name:") {
            match second_token_of(line) {
                Option::None => {
                    return Err(
                        Error::InvalidProcEntry {
                            process_id,
                            path: status_path,
                            reason: String::from_str("Name line is invalid"),
                        },
                    );
                },
                Option::Some(tok) => {
                    name = Some(tok);
                },
            }
        }
        pos = new_pos;
    }
    let parent = match parent_process_id {
        Option::Some(v) => v,
        Option::None => {
            return Err(
                Error::InvalidProcEntry {
                    process_id,
                    path: status_path,
                    reason: String::from_str("Parent process id is None"),
                },
            );
        },
    };
    let name_value = match name {
        Option::Some(s) => s,
        Option::None => {
            return Err(
                Error::InvalidProcEntry {
                    process_id,
                    path: status_path,
                    reason: String::from_str("Name is None"),
                },
            );
        },
    };
    Ok(ProcessInfo { process_id, parent_process_id: parent, name: name_value })
}

} // verus!
