//! Parsing utilities for templates.

use vstd::prelude::*;

use crate::path_display;
use crate::var_model;
use crate::var_wf;
use crate::Variable;

verus! {

/// Location information.
///
/// Used for offsets into source.  All indexes are 0 based (i.e. row 0,
/// col 0 is the first character of the first line).
#[derive(Clone, Debug, PartialEq, Eq, PartialOrd, Ord, Hash, Copy, Structural)]
pub struct Location {
    /// Line (row) of the location, counted from 0.
    pub line: usize,
    /// Column of the location, counted from 0.
    pub col: usize,
}

impl Location {
    /// Construct a new location.  Note the argument order: column first.
    pub fn new(col: usize, line: usize) -> (r: Location)
        ensures
            r == (Location { line, col }),
    {
        Location { col, line }
    }

    /// The location `(0, 0)`.
    pub fn zero() -> (r: Location)
        ensures
            r == (Location { line: 0usize, col: 0usize }),
    {
        Location { line: 0, col: 0 }
    }

    /// Componentwise sum of two locations.
    pub fn add(self, rhs: Location) -> (r: Location)
        requires
            self.line + rhs.line <= usize::MAX,
            self.col + rhs.col <= usize::MAX,
        ensures
            r == (Location { line: (self.line + rhs.line) as usize, col: (self.col + rhs.col) as usize }),
    {
        Location { line: self.line + rhs.line, col: self.col + rhs.col }
    }

    /// Componentwise difference of two locations.
    pub fn sub(self, rhs: Location) -> (r: Location)
        requires
            rhs.line <= self.line,
            rhs.col <= self.col,
        ensures
            r == (Location { line: (self.line - rhs.line) as usize, col: (self.col - rhs.col) as usize }),
    {
        Location { line: self.line - rhs.line, col: self.col - rhs.col }
    }
}

/// Kind of error reported by parsers.
#[derive(Debug, PartialEq, Eq, Structural)]
#[non_exhaustive]
pub enum ErrorKind {
    /// Variable segment is empty.
    EmptyVariableSegment,
    /// Newline within a path variable.
    NewlineInVariableSegment,
    /// Space inside path variable (variable with at least one `.`).
    SpaceInPath,
    /// Invalid character encountered.
    InvalidCharacter {
        /// The offending byte.
        token: u8,
    },
    /// More than 1 variable in a template (`{{ ... }}`) block.
    TooManyVariablesInBlock,
}

/// Type for errors reported by parsing.
#[derive(Debug, PartialEq, Eq, Structural)]
pub struct Error {
    /// Offset into source for the error.
    pub offset: Location,
    /// Type of error.
    pub ty: ErrorKind,
}

impl Error {
    /// Construct a new error with offset and kind.
    pub fn new(offset: Location, ty: ErrorKind) -> (r: Error)
        ensures
            r == (Error { offset, ty }),
    {
        Error { offset, ty }
    }

    /// Add an offset to an existing error.
    pub fn add_offset(self, offset: Location) -> (r: Error)
        requires
            self.offset.line + offset.line <= usize::MAX,
            self.offset.col + offset.col <= usize::MAX,
        ensures
            r == (Error { offset: self.offset.add_spec(offset), ty: self.ty }),
    {
        Error { offset: self.offset.add(offset), ty: self.ty }
    }

    /// What kind of error this is.
    pub fn kind(&self) -> (r: &ErrorKind)
        ensures
            *r == self.ty,
    {
        &self.ty
    }

    /// Location in the input at which this error occurred.
    pub fn location(&self) -> (r: Location)
        ensures
            r == self.offset,
    {
        self.offset
    }
}

impl Location {
    /// Componentwise sum, at the specification level.
    pub open spec fn add_spec(self, rhs: Location) -> Location {
        Location {
            line: (self.line + rhs.line) as usize,
            col: (self.col + rhs.col) as usize,
        }
    }
}

/// The message text for an error kind.
pub open spec fn message_spec(k: ErrorKind) -> Seq<char> {
    match k {
        ErrorKind::EmptyVariableSegment => "empty variable segment name"@,
        ErrorKind::NewlineInVariableSegment => "newline in variable segment"@,
        ErrorKind::SpaceInPath => "space in variable path"@,
        ErrorKind::InvalidCharacter { token } => "invalid character: '"@ + crate::decimal::nat_dec_str(
            token as int,
        ) + "'"@,
        ErrorKind::TooManyVariablesInBlock => "more than 1 variable in template block"@,
    }
}

impl ErrorKind {
    /// The human-readable message for this kind of error.
    pub fn message(&self) -> (r: String)
        ensures
            r@ == message_spec(*self),
    {
        match self {
            ErrorKind::EmptyVariableSegment => String::from_str("empty variable segment name"),
            ErrorKind::NewlineInVariableSegment => String::from_str("newline in variable segment"),
            ErrorKind::SpaceInPath => String::from_str("space in variable path"),
            ErrorKind::InvalidCharacter { token } => {
                let mut s = String::from_str("invalid character: '");
                let digits = crate::decimal::u128_to_string(*token as u128);
                s.append(digits.as_str());
                s.append("'");
                proof {
                    assert(s@ =~= message_spec(*self));
                }
                s
            },
            ErrorKind::TooManyVariablesInBlock => String::from_str(
                "more than 1 variable in template block",
            ),
        }
    }
}

/// The display text of a location.
pub open spec fn location_display_spec(l: Location) -> Seq<char> {
    "(row: "@ + crate::decimal::nat_dec_str(l.line as int) + ", column: "@
        + crate::decimal::nat_dec_str(l.col as int) + ")"@
}

impl Location {
    /// The display text of the location: `(row: R, column: C)`.
    pub fn display_string(&self) -> (r: String)
        ensures
            r@ == location_display_spec(*self),
    {
        let mut s = String::from_str("(row: ");
        let line = crate::decimal::usize_to_string(self.line);
        s.append(line.as_str());
        s.append(", column: ");
        let col = crate::decimal::usize_to_string(self.col);
        s.append(col.as_str());
        s.append(")");
        proof {
            assert(s@ =~= location_display_spec(*self));
        }
        s
    }
}

/// The display text of an error: its message and its location, with
/// line and column counted from 1 for human readers.
pub open spec fn error_display_spec(e: Error) -> Seq<char> {
    message_spec(e.ty) + " at line "@ + crate::decimal::nat_dec_str(e.offset.line + 1)
        + " column "@ + crate::decimal::nat_dec_str(e.offset.col + 1)
}

impl Error {
    /// The display text of the error, with line and column counted
    /// from 1.
    pub fn display_string(&self) -> (r: String)
        requires
            self.offset.line < usize::MAX,
            self.offset.col < usize::MAX,
        ensures
            r@ == error_display_spec(*self),
    {
        let mut s = self.ty.message();
        s.append(" at line ");
        let line = crate::decimal::usize_to_string(self.offset.line + 1);
        s.append(line.as_str());
        s.append(" column ");
        let col = crate::decimal::usize_to_string(self.offset.col + 1);
        s.append(col.as_str());
        proof {
            assert(s@ =~= error_display_spec(*self));
        }
        s
    }
}

/// ASCII whitespace.
pub open spec fn whitespace_char(c: char) -> bool {
    c == ' ' || c == '\t' || c == '\n' || c == '\r' || c == '\u{c}'
}

/// Punctuation reserved for template syntax or path separation.
pub open spec fn reserved_char(c: char) -> bool {
    ||| c == '!'
    ||| c == '"'
    ||| c == '#'
    ||| c == '%'
    ||| c == '&'
    ||| c == '\''
    ||| c == '('
    ||| c == ')'
    ||| c == '*'
    ||| c == '+'
    ||| c == '|'
    ||| c == '.'
    ||| c == '/'
    ||| c == ';'
    ||| c == '<'
    ||| c == '='
    ||| c == '>'
    ||| c == '@'
    ||| c == '['
    ||| c == ']'
    ||| c == '\\'
    ||| c == '^'
    ||| c == '`'
    ||| c == '{'
    ||| c == '}'
    ||| c == ','
    ||| c == '~'
}

/// A character that may appear in a path segment: anything that is neither
/// ASCII whitespace nor reserved punctuation.
pub open spec fn identifier_char(c: char) -> bool {
    !whitespace_char(c) && !reserved_char(c)
}

/// A character that may appear in the run scanned for a whole path:
/// identifier characters, spaces and the `.` separator.
pub open spec fn path_char(c: char) -> bool {
    identifier_char(c) || c == ' ' || c == '.'
}

/// Whether a byte is a valid identifier character.
///
/// This classification is the single source of truth used both by path
/// parsing and by placeholder scanning.
pub fn is_valid_identifier_ch(ch: u8) -> (r: bool)
    ensures
        r == identifier_char(ch as char),
{
    let c = ch as char;
    !((c == ' ' || c == '\t' || c == '\n' || c == '\r' || c == '\u{c}') || (c == '!' || c == '"'
        || c == '#' || c == '%' || c == '&' || c == '\'' || c == '(' || c == ')' || c == '*'
        || c == '+' || c == '|' || c == '.' || c == '/' || c == ';' || c == '<' || c == '='
        || c == '>' || c == '@' || c == '[' || c == ']' || c == '\\' || c == '^' || c == '`'
        || c == '{' || c == '}' || c == ',' || c == '~'))
}

/// Whether a character is a valid identifier character (executable form).
pub fn identifier_char_exec(c: char) -> (r: bool)
    ensures
        r == identifier_char(c),
{
    !((c == ' ' || c == '\t' || c == '\n' || c == '\r' || c == '\u{c}') || (c == '!' || c == '"'
        || c == '#' || c == '%' || c == '&' || c == '\'' || c == '(' || c == ')' || c == '*'
        || c == '+' || c == '|' || c == '.' || c == '/' || c == ';' || c == '<' || c == '='
        || c == '>' || c == '@' || c == '[' || c == ']' || c == '\\' || c == '^' || c == '`'
        || c == '{' || c == '}' || c == ',' || c == '~'))
}

/// Length of the run of identifier characters starting at `i`.
pub open spec fn id_run(s: Seq<char>, i: int) -> int
    decreases s.len() - i,
{
    if i < 0 || i >= s.len() || !identifier_char(s[i]) {
        0
    } else {
        1 + id_run(s, i + 1)
    }
}

/// Length of the run of path characters starting at `i`.
pub open spec fn path_run(s: Seq<char>, i: int) -> int
    decreases s.len() - i,
{
    if i < 0 || i >= s.len() || !path_char(s[i]) {
        0
    } else {
        1 + path_run(s, i + 1)
    }
}

/// Length of the run of spaces starting at `i`.
pub open spec fn space_run(s: Seq<char>, i: int) -> int
    decreases s.len() - i,
{
    if i < 0 || i >= s.len() || s[i] != ' ' {
        0
    } else {
        1 + space_run(s, i + 1)
    }
}

/// Outcome of scanning one path segment off the front of an input.
pub enum SegParse {
    /// A segment of the given length was recognized.
    SegOk(int),
    /// Scanning failed with this kind, at this column.
    SegErr(ErrorKind, int),
}

/// What [`try_parse_variable_segment`] returns on a given input: the
/// longest run of identifier characters, or the first structural
/// violation.
pub open spec fn seg_scan(s: Seq<char>) -> SegParse {
    let k = id_run(s, 0);
    if s.len() == 0 {
        SegParse::SegErr(ErrorKind::EmptyVariableSegment, 0)
    } else if k == 0 {
        if s[0] == '\n' {
            SegParse::SegErr(ErrorKind::NewlineInVariableSegment, 0)
        } else {
            SegParse::SegErr(ErrorKind::EmptyVariableSegment, 0)
        }
    } else if k < s.len() && s[k] == '\n' {
        SegParse::SegErr(ErrorKind::NewlineInVariableSegment, k)
    } else {
        SegParse::SegOk(k)
    }
}

/// Basic bounds of [`id_run`]: the run stays inside the input, consists of
/// identifier characters, and is maximal.
pub proof fn lemma_id_run_bounds(s: Seq<char>, i: int)
    requires
        0 <= i <= s.len(),
    ensures
        0 <= id_run(s, i),
        i + id_run(s, i) <= s.len(),
        forall|j: int| i <= j < i + id_run(s, i) ==> identifier_char(#[trigger] s[j]),
        i + id_run(s, i) < s.len() ==> !identifier_char(s[i + id_run(s, i)]),
    decreases s.len() - i,
{
    if i < s.len() && identifier_char(s[i]) {
        lemma_id_run_bounds(s, i + 1);
    }
}

/// Basic bounds of [`path_run`].
pub proof fn lemma_path_run_bounds(s: Seq<char>, i: int)
    requires
        0 <= i <= s.len(),
    ensures
        0 <= path_run(s, i),
        i + path_run(s, i) <= s.len(),
        forall|j: int| i <= j < i + path_run(s, i) ==> path_char(#[trigger] s[j]),
        i + path_run(s, i) < s.len() ==> !path_char(s[i + path_run(s, i)]),
    decreases s.len() - i,
{
    if i < s.len() && path_char(s[i]) {
        lemma_path_run_bounds(s, i + 1);
    }
}

/// Basic bounds of [`space_run`].
pub proof fn lemma_space_run_bounds(s: Seq<char>, i: int)
    requires
        0 <= i <= s.len(),
    ensures
        0 <= space_run(s, i),
        i + space_run(s, i) <= s.len(),
        forall|j: int| i <= j < i + space_run(s, i) ==> #[trigger] s[j] == ' ',
        i + space_run(s, i) < s.len() ==> s[i + space_run(s, i)] != ' ',
    decreases s.len() - i,
{
    if i < s.len() && s[i] == ' ' {
        lemma_space_run_bounds(s, i + 1);
    }
}

/// The positions reported by [`seg_scan`] stay inside the input.
pub proof fn lemma_seg_scan_bounds(s: Seq<char>)
    ensures
        match seg_scan(s) {
            SegParse::SegOk(k) => 1 <= k <= s.len(),
            SegParse::SegErr(_, c) => 0 <= c <= s.len(),
        },
{
    lemma_id_run_bounds(s, 0);
}

/// A run bounded below: if all of `[i, m)` satisfies the class and `m` is
/// the end of input or fails it, the run from `i` is exactly `m - i`.
pub proof fn lemma_id_run_exact(s: Seq<char>, i: int, m: int)
    requires
        0 <= i <= m <= s.len(),
        forall|j: int| i <= j < m ==> identifier_char(#[trigger] s[j]),
        m == s.len() || !identifier_char(s[m]),
    ensures
        id_run(s, i) == m - i,
    decreases m - i,
{
    if i < m {
        lemma_id_run_exact(s, i + 1, m);
    }
}

/// Exact characterization of [`path_run`], as for [`lemma_id_run_exact`].
pub proof fn lemma_path_run_exact(s: Seq<char>, i: int, m: int)
    requires
        0 <= i <= m <= s.len(),
        forall|j: int| i <= j < m ==> path_char(#[trigger] s[j]),
        m == s.len() || !path_char(s[m]),
    ensures
        path_run(s, i) == m - i,
    decreases m - i,
{
    if i < m {
        lemma_path_run_exact(s, i + 1, m);
    }
}

/// Exact characterization of [`space_run`].
pub proof fn lemma_space_run_exact(s: Seq<char>, i: int, m: int)
    requires
        0 <= i <= m <= s.len(),
        forall|j: int| i <= j < m ==> #[trigger] s[j] == ' ',
        m == s.len() || s[m] != ' ',
    ensures
        space_run(s, i) == m - i,
    decreases m - i,
{
    if i < m {
        lemma_space_run_exact(s, i + 1, m);
    }
}

/// Outcome of parsing a whole dotted path.
pub enum PathParse {
    /// The sequence of parsed segments, in order.
    PathOk(Seq<Seq<char>>),
    /// Parsing failed with this kind, at this column.
    PathErr(ErrorKind, int),
}

/// What parsing a dotted path returns on a given input.
///
/// The scan is restricted to the maximal prefix of path characters; in
/// strict mode anything beyond that prefix is an `InvalidCharacter`
/// error, otherwise it is ignored (used inside placeholders, where `}}`
/// legitimately follows the path).
pub open spec fn spec_parse_path(s: Seq<char>, strict: bool) -> PathParse
    decreases s.len(), 1int, 0int,
{
    let vl = path_run(s, 0);
    if strict && vl != s.len() {
        PathParse::PathErr(ErrorKind::InvalidCharacter { token: s[vl] as u8 }, vl)
    } else if vl == 0 {
        PathParse::PathErr(ErrorKind::EmptyVariableSegment, 0)
    } else {
        match seg_scan(s) {
            SegParse::SegErr(kind, col) => PathParse::PathErr(kind, col),
            SegParse::SegOk(k) => {
                let sp = space_run(s, k);
                if sp >= 1 && k + sp < s.len() && s[k + sp] == '.' {
                    PathParse::PathErr(ErrorKind::SpaceInPath, k)
                } else if k == vl {
                    PathParse::PathOk(seq![s.subrange(0, k)])
                } else {
                    segs_loop(s, vl, k, seq![s.subrange(0, k)])
                }
            },
        }
    }
}

/// The segment-collecting phase of path parsing, from offset `head`
/// onward: repeatedly skip a `.` separator and parse the next segment,
/// stopping at trailing spaces or the end of the path run `vl`.
pub open spec fn segs_loop(s: Seq<char>, vl: int, head: int, acc: Seq<Seq<char>>) -> PathParse
    decreases s.len(), 0int, s.len() - head,
    when 1 <= head <= vl <= s.len()
    via segs_loop_decreases
{
    if head == vl || s[head] == ' ' {
        let h2 = head + space_run(s, head);
        if spec_parse_path(s.subrange(h2, s.len() as int), false) is PathOk {
            PathParse::PathErr(ErrorKind::TooManyVariablesInBlock, h2)
        } else {
            PathParse::PathOk(acc)
        }
    } else if s[head] == '.' {
        if head + 1 == vl || s[head + 1] == ' ' {
            PathParse::PathErr(ErrorKind::EmptyVariableSegment, head)
        } else {
            segs_loop(s, vl, head + 1, acc)
        }
    } else {
        match seg_scan(s.subrange(head, s.len() as int)) {
            SegParse::SegErr(kind, col) => PathParse::PathErr(kind, head + col),
            SegParse::SegOk(k2) => segs_loop(s, vl, head + k2, acc + seq![s.subrange(head, head + k2)]),
        }
    }
}

#[via_fn]
proof fn segs_loop_decreases(s: Seq<char>, vl: int, head: int, acc: Seq<Seq<char>>) {
    if 1 <= head && head <= vl && vl <= s.len() {
        if head == vl || s[head] == ' ' {
            lemma_space_run_bounds(s, head);
        } else if s[head] == '.' {
        } else {
            lemma_id_run_bounds(s.subrange(head, s.len() as int), 0);
        }
    }
}

/// Length of the run of spaces starting at `from` (executable form).
pub fn space_run_exec(s: &str, from: usize) -> (r: usize)
    requires
        from <= s@.len(),
    ensures
        r == space_run(s@, from as int),
        from + r <= s@.len(),
{
    let n = s.unicode_len();
    let mut i: usize = from;
    let mut scanning = true;
    while scanning && i < n
        invariant
            n == s@.len(),
            from <= i <= n,
            forall|j: int| from <= j < i ==> #[trigger] s@[j] == ' ',
            !scanning ==> (i < n && s@[i as int] != ' '),
        decreases n - i + (if scanning { 1int } else { 0int }),
    {
        if s.get_char(i) == ' ' {
            i += 1;
        } else {
            scanning = false;
        }
    }
    proof {
        lemma_space_run_exact(s@, from as int, i as int);
    }
    i - from
}

/// Parse one path segment off the front of `input`.
///
/// Fails with `EmptyVariableSegment` if the input is empty or starts with
/// a non-identifier character, and with `NewlineInVariableSegment` if a
/// newline is encountered before a terminator.  Otherwise returns the
/// longest prefix of identifier characters.
pub fn try_parse_variable_segment<'a>(input: &'a str) -> (r: Result<&'a str, Error>)
    ensures
        match seg_scan(input@) {
            SegParse::SegOk(k) => r is Ok && r->Ok_0@ == input@.subrange(0, k),
            SegParse::SegErr(kind, col) => r == Err::<&'a str, Error>(
                Error { offset: Location { line: 0, col: col as usize }, ty: kind },
            ),
        },
{
    let n = input.unicode_len();
    if n == 0 {
        return Err(Error::new(Location::zero(), ErrorKind::EmptyVariableSegment));
    }
    let mut offset: usize = 0;
    while offset < n
        invariant
            n == input@.len(),
            0 <= offset <= n,
            forall|j: int| 0 <= j < offset ==> identifier_char(#[trigger] input@[j]),
        decreases n - offset,
    {
        let ch = input.get_char(offset);
        if ch == '\n' {
            proof {
                lemma_id_run_exact(input@, 0, offset as int);
            }
            return Err(Error::new(Location::new(offset, 0), ErrorKind::NewlineInVariableSegment));
        }
        if !identifier_char_exec(ch) {
            proof {
                lemma_id_run_exact(input@, 0, offset as int);
            }
            if offset == 0 {
                return Err(Error::new(Location::new(offset, 0), ErrorKind::EmptyVariableSegment));
            } else {
                return Ok(input.substring_char(0, offset));
            }
        }
        offset += 1;
    }
    proof {
        lemma_id_run_exact(input@, 0, n as int);
        assert(input@.subrange(0, n as int) =~= input@);
    }
    Ok(input)
}

/// Appending one segment to a non-empty path extends its display form by
/// a separator and that segment.
pub proof fn lemma_path_display_push(acc: Seq<Seq<char>>, x: Seq<char>)
    requires
        acc.len() >= 1,
    ensures
        path_display(acc + seq![x]) == path_display(acc) + seq!['.'] + x,
{
    assert((acc + seq![x]).drop_last() =~= acc);
    assert((acc + seq![x]).last() == x);
}

/// Positions reported by [`segs_loop`] stay inside the input, and a
/// parsed path displays no longer than the input that produced it.
proof fn lemma_segs_loop_bounds(s: Seq<char>, vl: int, head: int, acc: Seq<Seq<char>>)
    requires
        1 <= head <= vl <= s.len(),
        vl == path_run(s, 0),
        forall|j: int| 0 <= j < vl ==> path_char(#[trigger] s[j]),
        acc.len() >= 1,
        path_display(acc).len() <= head,
        head < vl && identifier_char(s[head]) ==> path_display(acc).len() + 1 <= head,
    ensures
        match segs_loop(s, vl, head, acc) {
            PathParse::PathOk(ss) => 1 <= ss.len() && path_display(ss).len() <= s.len(),
            PathParse::PathErr(_, c) => 0 <= c <= s.len(),
        },
    decreases vl - head,
{
    if head == vl || s[head] == ' ' {
        lemma_space_run_bounds(s, head);
    } else if s[head] == '.' {
        if head + 1 == vl || s[head + 1] == ' ' {
        } else {
            lemma_segs_loop_bounds(s, vl, head + 1, acc);
        }
    } else {
        let tail = s.subrange(head, s.len() as int);
        lemma_seg_scan_bounds(tail);
        match seg_scan(tail) {
            SegParse::SegErr(_, _) => {
            },
            SegParse::SegOk(k2) => {
                lemma_id_run_bounds(tail, 0);
                let seg = s.subrange(head, head + k2);
                lemma_path_display_push(acc, seg);
                if head + k2 > vl {
                    lemma_path_run_bounds(s, 0);
                    assert(identifier_char(tail[vl - head]));
                    assert(s[vl] == tail[vl - head]);
                    assert(false);
                }
                if head + k2 < s.len() {
                    assert(!identifier_char(tail[k2]));
                }
                lemma_segs_loop_bounds(s, vl, head + k2, acc + seq![seg]);
            },
        }
    }
}

/// Positions reported by [`spec_parse_path`] stay inside the input, and
/// a parsed path displays no longer than the input.
pub proof fn lemma_parse_path_bounds(s: Seq<char>, strict: bool)
    ensures
        match spec_parse_path(s, strict) {
            PathParse::PathOk(ss) => 1 <= ss.len() && path_display(ss).len() <= s.len(),
            PathParse::PathErr(_, c) => 0 <= c <= s.len(),
        },
{
    lemma_path_run_bounds(s, 0);
    lemma_seg_scan_bounds(s);
    let vl = path_run(s, 0);
    if !(strict && vl != s.len()) && vl != 0 {
        match seg_scan(s) {
            SegParse::SegErr(_, _) => {
            },
            SegParse::SegOk(k) => {
                lemma_id_run_bounds(s, 0);
                if !(space_run(s, k) >= 1 && k + space_run(s, k) < s.len() && s[k + space_run(
                    s,
                    k,
                )] == '.') && k != vl {
                    assert(path_display(seq![s.subrange(0, k)]) == s.subrange(0, k));
                    lemma_segs_loop_bounds(s, vl, k, seq![s.subrange(0, k)]);
                }
            },
        }
    }
}

/// Outcome of parsing the inside of a `{{ ... }}` placeholder.
pub enum InnerParse {
    /// A variable with the given segments was recognized; the second
    /// component is how many characters of the inner input were consumed,
    /// the closing `}}` included.
    InnerOk(Seq<Seq<char>>, int),
    /// Parsing failed with this kind, at this column of the inner input.
    InnerErr(ErrorKind, int),
    /// The input is not a placeholder at all; it falls through as
    /// literal text.
    InnerNone,
}

/// Position of the first `}}` at or after `h`, if any.
pub open spec fn find_close(t: Seq<char>, h: int) -> Option<int>
    decreases t.len() - h,
{
    if h < 0 || h >= t.len() - 1 {
        None
    } else if t[h] == '}' && t[h + 1] == '}' {
        Some(h)
    } else {
        find_close(t, h + 1)
    }
}

/// Where [`find_close`] finds a closing delimiter, it lies within the
/// input.
pub proof fn lemma_find_close_bounds(t: Seq<char>, h: int)
    requires
        0 <= h,
    ensures
        match find_close(t, h) {
            Some(j) => h <= j <= t.len() - 2,
            None => true,
        },
    decreases t.len() - h,
{
    if h < t.len() - 1 && !(t[h] == '}' && t[h + 1] == '}') {
        lemma_find_close_bounds(t, h + 1);
    }
}

/// What parsing the inside of a placeholder returns: skip leading
/// spaces, parse a path with `}` as an implicit terminator, then scan
/// forward from the end of the path for the closing `}}`.
pub open spec fn spec_template_inner(t: Seq<char>) -> InnerParse {
    let sp = space_run(t, 0);
    match spec_parse_path(t.subrange(sp, t.len() as int), false) {
        PathParse::PathErr(kind, c) => if kind == ErrorKind::EmptyVariableSegment && c == 0 {
            InnerParse::InnerNone
        } else {
            InnerParse::InnerErr(kind, sp + c)
        },
        PathParse::PathOk(ss) => match find_close(t, sp + path_display(ss).len() as int) {
            Some(j) => InnerParse::InnerOk(ss, j + 2),
            None => InnerParse::InnerNone,
        },
    }
}

/// Parse the start of a template placeholder, everything after its
/// opening `{{`.
///
/// Returns `None` where the input is no placeholder (it then falls
/// through as literal text), and the parsed variable together with the
/// number of characters consumed, the closing `}}` included, where it is.
pub fn parse_template_inner(input: &str) -> (r: Option<Result<(Variable, usize), Error>>)
    ensures
        match spec_template_inner(input@) {
            InnerParse::InnerOk(ss, consumed) => {
                &&& r is Some
                &&& r->0 is Ok
                &&& var_model(r->0->Ok_0.0) == ss
                &&& var_wf(r->0->Ok_0.0)
                &&& r->0->Ok_0.1 == consumed
            },
            InnerParse::InnerErr(kind, col) => r == Some(Err::<(Variable, usize), Error>(
                Error { offset: Location { line: 0, col: col as usize }, ty: kind },
            )),
            InnerParse::InnerNone => r is None,
        },
{
    let n = input.unicode_len();
    let sp = space_run_exec(input, 0);
    let rest = input.substring_char(sp, n);
    proof {
        lemma_parse_path_bounds(rest@, false);
    }
    match crate::parse_with_terminator(rest, false) {
        Err(e) => {
            if e.ty == ErrorKind::EmptyVariableSegment && e.offset.col == 0 && e.offset.line == 0 {
                None
            } else {
                Some(Err(e.add_offset(Location::new(sp, 0))))
            }
        },
        Ok(var) => {
            let pl = var.len();
            let mut head = sp + pl;
            let ghost target = find_close(input@, head as int);
            proof {
                lemma_find_close_bounds(input@, head as int);
            }
            while head < n - 1
                invariant
                    n == input@.len(),
                    n >= 1,
                    0 <= head <= n,
                    sp == space_run(input@, 0),
                    spec_parse_path(input@.subrange(sp as int, n as int), false)
                        == PathParse::PathOk(var_model(var)),
                    var_wf(var),
                    target == find_close(
                        input@,
                        sp + path_display(var_model(var)).len() as int,
                    ),
                    find_close(input@, head as int) == target,
                decreases n - head,
            {
                if input.get_char(head) == '}' {
                    if input.get_char(head + 1) == '}' {
                        proof {
                            lemma_find_close_bounds(input@, head as int);
                        }
                        return Some(Ok((var, head + 2)));
                    }
                }
                head += 1;
            }
            None
        },
    }
}

/// What a placeholder parse consumes stays inside the inner input, and
/// error columns stay inside it too.
pub proof fn lemma_template_inner_bounds(t: Seq<char>)
    ensures
        match spec_template_inner(t) {
            InnerParse::InnerOk(_, consumed) => 2 <= consumed <= t.len(),
            InnerParse::InnerErr(_, c) => 0 <= c <= t.len(),
            InnerParse::InnerNone => true,
        },
{
    lemma_space_run_bounds(t, 0);
    let sp = space_run(t, 0);
    lemma_parse_path_bounds(t.subrange(sp, t.len() as int), false);
    match spec_parse_path(t.subrange(sp, t.len() as int), false) {
        PathParse::PathErr(_, _) => {
        },
        PathParse::PathOk(ss) => {
            lemma_find_close_bounds(t, sp + path_display(ss).len() as int);
        },
    }
}

/// One token of the specification-level scan.
pub enum TokenModel {
    /// A run of literal text.
    TokText(Seq<char>),
    /// A variable, as its segments.
    TokVar(Seq<Seq<char>>),
}

/// The tokens and final error that scanning yields from the given state:
/// `head` is the scan position, `tail` the start of the pending literal
/// text, and `row`/`col` the current position used for error locations.
pub open spec fn spec_scan(s: Seq<char>, head: int, tail: int, row: int, col: int) -> (Seq<
    TokenModel,
>, Option<Error>)
    decreases s.len() - head,
    when 0 <= tail <= head && 0 <= row && 0 <= col
    via spec_scan_decreases
{
    if head >= s.len() {
        if tail < s.len() {
            (seq![TokenModel::TokText(s.subrange(tail, s.len() as int))], None::<Error>)
        } else {
            (seq![], None::<Error>)
        }
    } else if s[head] == '{' && head + 1 < s.len() && s[head + 1] == '{' && !(spec_template_inner(
        s.subrange(head + 2, s.len() as int),
    ) is InnerNone) {
        match spec_template_inner(s.subrange(head + 2, s.len() as int)) {
            InnerParse::InnerOk(ss, consumed) => {
                let rest = spec_scan(
                    s,
                    head + consumed + 2,
                    head + consumed + 2,
                    row,
                    col + consumed + 2,
                );
                if tail != head {
                    (
                        seq![
                            TokenModel::TokText(s.subrange(tail, head)),
                            TokenModel::TokVar(ss),
                        ] + rest.0,
                        rest.1,
                    )
                } else {
                    (seq![TokenModel::TokVar(ss)] + rest.0, rest.1)
                }
            },
            InnerParse::InnerErr(kind, c) => (
                seq![],
                Some(
                    Error {
                        offset: Location { line: row as usize, col: (col + 2 + c) as usize },
                        ty: kind,
                    },
                ),
            ),
            InnerParse::InnerNone => (seq![], None::<Error>),
        }
    } else {
        if s[head] == '\n' {
            spec_scan(s, head + 1, tail, row + 1, 0)
        } else {
            spec_scan(s, head + 1, tail, row, col + 1)
        }
    }
}

#[via_fn]
proof fn spec_scan_decreases(s: Seq<char>, head: int, tail: int, row: int, col: int) {
    if 0 <= tail <= head && head < s.len() {
        lemma_template_inner_bounds(s.subrange(head + 2, s.len() as int));
    }
}

/// The tokens and final error that tokenizing an input yields.
pub open spec fn spec_tokenize(s: Seq<char>) -> (Seq<TokenModel>, Option<Error>) {
    spec_scan(s, 0, 0, 0, 0)
}

/// A scan that meets no `{{` from `head` onward flushes the pending
/// literal text as one token and nothing else.
proof fn lemma_scan_no_open(s: Seq<char>, head: int, tail: int, row: int, col: int)
    requires
        0 <= tail <= head <= s.len(),
        0 <= row,
        0 <= col,
        forall|i: int| head <= i < s.len() - 1 ==> !(s[i] == '{' && #[trigger] s[i + 1] == '{'),
    ensures
        spec_scan(s, head, tail, row, col) == if tail < s.len() {
            (seq![TokenModel::TokText(s.subrange(tail, s.len() as int))], None::<Error>)
        } else {
            (seq![], None::<Error>)
        },
    decreases s.len() - head,
{
    if head < s.len() {
        if s[head] == '{' && head + 1 < s.len() && s[head + 1] == '{' {
            assert(false);
        }
        if s[head] == '\n' {
            lemma_scan_no_open(s, head + 1, tail, row + 1, 0);
        } else {
            lemma_scan_no_open(s, head + 1, tail, row, col + 1);
        }
    }
}

/// Tokenizing an input without any `{{` yields the whole input as one
/// literal token (or nothing, for an empty input), and no error.
pub proof fn lemma_tokenize_without_placeholders(s: Seq<char>)
    requires
        forall|i: int| 0 <= i < s.len() - 1 ==> !(s[i] == '{' && #[trigger] s[i + 1] == '{'),
    ensures
        spec_tokenize(s) == if s.len() > 0 {
            (seq![TokenModel::TokText(s)], None::<Error>)
        } else {
            (seq![], None::<Error>)
        },
{
    lemma_scan_no_open(s, 0, 0, 0, 0);
    if s.len() > 0 {
        assert(s.subrange(0, s.len() as int) =~= s);
    }
}

/// Type for tokens emitted by the tokenizer.
#[derive(Debug, PartialEq, Eq)]
pub enum Token {
    /// Variable for later expansion.
    Variable(Variable),
    /// Untemplated string input.
    Str(String),
}

/// The model of one emitted token.
pub open spec fn token_model(t: Token) -> TokenModel {
    match t {
        Token::Variable(v) => TokenModel::TokVar(var_model(v)),
        Token::Str(s) => TokenModel::TokText(s@),
    }
}

/// Well-formedness of an emitted token.
pub open spec fn token_wf(t: Token) -> bool {
    match t {
        Token::Variable(v) => var_wf(v),
        Token::Str(_) => true,
    }
}

/// Tokenization iterator.
///
/// Pulls one token at a time off a template: alternating literal-text
/// and variable tokens.  Once it has yielded an error it always yields
/// nothing more.
pub struct Tokenize {
    text: String,
    head: usize,
    tail: usize,
    row: usize,
    col: usize,
    hit_error: bool,
    var_next: Option<Variable>,
}

impl Tokenize {
    /// Internal consistency of the scanner state.
    pub closed spec fn wf(self) -> bool {
        &&& self.tail <= self.head <= self.text@.len()
        &&& self.col <= self.head
        &&& self.row <= self.head
        &&& match self.var_next {
            Some(v) => var_wf(v),
            None => true,
        }
    }

    /// The tokens this iterator will still yield, and the error it will
    /// end with, if any.
    pub closed spec fn remaining(self) -> (Seq<TokenModel>, Option<Error>) {
        let base = if self.hit_error {
            (seq![], None::<Error>)
        } else {
            spec_scan(
                self.text@,
                self.head as int,
                self.tail as int,
                self.row as int,
                self.col as int,
            )
        };
        match self.var_next {
            Some(v) => (seq![TokenModel::TokVar(var_model(v))] + base.0, base.1),
            None => base,
        }
    }

    /// Construct a new tokenization iterator on a given input.
    pub fn new(input: &str) -> (t: Tokenize)
        ensures
            t.wf(),
            t.remaining() == spec_tokenize(input@),
    {
        Tokenize {
            text: String::from_str(input),
            head: 0,
            tail: 0,
            row: 0,
            col: 0,
            hit_error: false,
            var_next: None,
        }
    }

    /// Yield the next token.
    ///
    /// Returns `Some(Ok(_))` for each token, `Some(Err(_))` once at the
    /// first malformed placeholder, and `None` at the end of the input
    /// and forever after an error.
    #[verifier::loop_isolation(false)]
    pub fn next(&mut self) -> (r: Option<Result<Token, Error>>)
        requires
            old(self).wf(),
        ensures
            final(self).wf(),
            ({
                let toks = old(self).remaining().0;
                let err = old(self).remaining().1;
                match r {
                    Option::None => {
                        &&& toks.len() == 0
                        &&& err is None
                        &&& final(self).remaining().0.len() == 0
                        &&& final(self).remaining().1 is None
                    },
                    Option::Some(Result::Ok(t)) => {
                        &&& toks.len() > 0
                        &&& token_model(t) == toks[0]
                        &&& token_wf(t)
                        &&& final(self).remaining().0 == toks.drop_first()
                        &&& final(self).remaining().1 == err
                    },
                    Option::Some(Result::Err(e)) => {
                        &&& toks.len() == 0
                        &&& err == Some(e)
                        &&& final(self).remaining().0.len() == 0
                        &&& final(self).remaining().1 is None
                    },
                }
            }),
    {
        let pending = self.var_next.take();
        if let Some(v) = pending {
            proof {
                assert(self.remaining().0 =~= old(self).remaining().0.drop_first());
            }
            return Some(Ok(Token::Variable(v)));
        }
        if self.hit_error {
            return None;
        }
        let n = self.text.unicode_len();
        if self.head >= n {
            if self.tail < n {
                let sub = self.text.as_str().substring_char(self.tail, n);
                let out = Token::Str(String::from_str(sub));
                self.tail = n;
                proof {
                    assert(self.remaining().0 =~= old(self).remaining().0.drop_first());
                }
                return Some(Ok(out));
            }
            return None;
        }
        let ghost init = *self;
        while self.head < n
            invariant
                self.wf(),
                n == self.text@.len(),
                self.text == init.text,
                self.var_next is None,
                !self.hit_error,
                spec_scan(
                    self.text@,
                    self.head as int,
                    self.tail as int,
                    self.row as int,
                    self.col as int,
                ) == init.remaining(),
            decreases n - self.head,
        {
            let c0 = self.text.as_str().get_char(self.head);
            let mut is_open = false;
            if c0 == '{' && self.head + 1 < n {
                if self.text.as_str().get_char(self.head + 1) == '{' {
                    is_open = true;
                }
            }
            if is_open {
                let inner = self.text.as_str().substring_char(self.head + 2, n);
                proof {
                    lemma_template_inner_bounds(inner@);
                }
                match parse_template_inner(inner) {
                    Option::Some(Result::Ok((var, consumed))) => {
                        let prev_tail = self.tail;
                        let prev_head = self.head;
                        let should_add_prev = self.tail != self.head;
                        self.head = self.head + consumed + 2;
                        self.tail = self.head;
                        self.col = self.col + consumed + 2;
                        if should_add_prev {
                            self.var_next = Some(var);
                            let sub = self.text.as_str().substring_char(prev_tail, prev_head);
                            let out = Token::Str(String::from_str(sub));
                            proof {
                                assert(self.remaining().0 =~= init.remaining().0.drop_first());
                            }
                            return Some(Ok(out));
                        } else {
                            proof {
                                assert(self.remaining().0 =~= init.remaining().0.drop_first());
                            }
                            return Some(Ok(Token::Variable(var)));
                        }
                    },
                    Option::Some(Result::Err(e)) => {
                        self.hit_error = true;
                        let out = e.add_offset(Location::new(self.col + 2, self.row));
                        proof {
                            assert(init.remaining().1 == Some(out));
                        }
                        return Some(Err(out));
                    },
                    Option::None => {
                    },
                }
            }
            if c0 == '\n' {
                self.col = 0;
                self.row = self.row + 1;
            } else {
                self.col = self.col + 1;
            }
            self.head = self.head + 1;
        }
        if self.tail < n {
            let sub = self.text.as_str().substring_char(self.tail, n);
            let out = Token::Str(String::from_str(sub));
            self.tail = n;
            proof {
                assert(self.remaining().0 =~= init.remaining().0.drop_first());
            }
            return Some(Ok(out));
        }
        None
    }
}

/// Tokenize a whole input at once.
///
/// Returns the tokens in order, or the first error.
#[verifier::loop_isolation(false)]
pub fn tokenize(input: &str) -> (r: Result<Vec<Token>, Error>)
    ensures
        ({
            let toks = spec_tokenize(input@).0;
            let err = spec_tokenize(input@).1;
            match r {
                Result::Ok(v) => {
                    &&& err is None
                    &&& v@.len() == toks.len()
                    &&& forall|i: int|
                        0 <= i < v@.len() ==> token_model(#[trigger] v@[i]) == toks[i] && token_wf(
                            v@[i],
                        )
                },
                Result::Err(e) => err == Some(e),
            }
        }),
{
    let ghost toks = spec_tokenize(input@).0;
    let ghost err = spec_tokenize(input@).1;
    let mut iter = Tokenize::new(input);
    let mut out: Vec<Token> = Vec::new();
    loop
        invariant
            iter.wf(),
            out@.len() + iter.remaining().0.len() == toks.len(),
            iter.remaining().1 == err,
            forall|i: int|
                0 <= i < out@.len() ==> token_model(#[trigger] out@[i]) == toks[i] && token_wf(
                    out@[i],
                ),
            forall|i: int|
                0 <= i < iter.remaining().0.len() ==> #[trigger] iter.remaining().0[i] == toks[
                    out@.len() + i
                ],
        decreases iter.remaining().0.len() + 1,
    {
        match iter.next() {
            Option::None => {
                return Ok(out);
            },
            Option::Some(Result::Ok(t)) => {
                out.push(t);
            },
            Option::Some(Result::Err(e)) => {
                return Err(e);
            },
        }
    }
}

} // verus!
