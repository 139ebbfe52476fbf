//! A small text-templating engine.
//!
//! A template is a string holding literal text interleaved with
//! `{{ variable.path }}` placeholders.  A [`Context`] maps dotted
//! [`Variable`] paths to string or object [`Value`]s; rendering a template
//! substitutes each placeholder with the string value its path resolves to.

use vstd::prelude::*;

pub mod context;
pub mod decimal;
pub mod parse;
pub mod value;

pub use context::Context;
pub use context::Error;
pub use value::Object;
pub use value::Value;

verus! {

/// Internal representation of a [`Variable`].
///
/// A path of exactly one segment is stored as `Single`; a path of two or
/// more segments is stored as `Segments`.  This distinction is invisible
/// through the public operations: equality, display and length only depend
/// on the sequence of segments.
#[derive(Debug, PartialEq, Eq, Hash)]
pub enum VariableInner {
    /// Two or more dot-separated segments.
    Segments(Vec<String>),
    /// Exactly one segment.
    Single(String),
}

/// Variable that can be used in templates.
///
/// A variable is a series of non-empty strings separated by `.`.
#[derive(Debug, PartialEq, Eq, Hash)]
pub struct Variable {
    /// The stored segments; see [`VariableInner`].
    pub inner: VariableInner,
}

/// The sequence of segments a variable stands for.
pub open spec fn var_model(v: Variable) -> Seq<Seq<char>> {
    match v.inner {
        VariableInner::Single(s) => seq![s@],
        VariableInner::Segments(vs) => vs.deep_view(),
    }
}

/// Well-formedness of a variable: at least one segment, every segment
/// non-empty, and the single-segment representation used exactly for
/// one-segment paths.
pub open spec fn var_wf(v: Variable) -> bool {
    match v.inner {
        VariableInner::Single(s) => s@.len() > 0,
        VariableInner::Segments(vs) => vs@.len() >= 2 && (forall|i: int|
            0 <= i < vs@.len() ==> #[trigger] vs@[i]@.len() > 0),
    }
}

/// The dotted display form of a sequence of segments: the segments joined
/// by `.`.
pub open spec fn path_display(ss: Seq<Seq<char>>) -> Seq<char>
    decreases ss.len(),
{
    if ss.len() == 0 {
        Seq::empty()
    } else if ss.len() == 1 {
        ss[0]
    } else {
        path_display(ss.drop_last()) + seq!['.'] + ss.last()
    }
}

/// Each prefix of a path displays no longer than the whole path.
pub proof fn lemma_path_display_take_le(ss: Seq<Seq<char>>, i: int)
    requires
        0 <= i <= ss.len(),
    ensures
        path_display(ss.take(i)).len() <= path_display(ss).len(),
    decreases ss.len() - i,
{
    if i < ss.len() {
        assert(ss.take(i + 1).drop_last() =~= ss.take(i));
        assert(ss.take(i + 1).last() == ss[i]);
        lemma_path_display_take_le(ss, i + 1);
    } else {
        assert(ss.take(i) =~= ss);
    }
}

/// Splitting off the last segment of a multi-segment path splits its
/// display form at the last separator.
proof fn lemma_path_display_decomp(ss: Seq<Seq<char>>, a: int)
    requires
        1 <= a < ss.len(),
    ensures
        path_display(ss.take(a + 1)) == path_display(ss.take(a)) + seq!['.'] + ss[a],
        path_display(ss.take(a + 1)).len() == path_display(ss.take(a)).len() + 1 + ss[a].len(),
{
    assert(ss.take(a + 1).drop_last() =~= ss.take(a));
    assert(ss.take(a + 1).last() == ss[a]);
}

/// The display form of the first `a` segments is a prefix of the whole
/// display form.
proof fn lemma_path_display_prefix(ss: Seq<Seq<char>>, a: int)
    requires
        1 <= a <= ss.len(),
    ensures
        path_display(ss.take(a)).len() <= path_display(ss).len(),
        path_display(ss).subrange(0, path_display(ss.take(a)).len() as int) == path_display(
            ss.take(a),
        ),
    decreases ss.len() - a,
{
    let s = path_display(ss);
    lemma_path_display_take_le(ss, a);
    if a == ss.len() {
        assert(ss.take(a) =~= ss);
        assert(s.subrange(0, s.len() as int) =~= s);
    } else {
        lemma_path_display_prefix(ss, a + 1);
        lemma_path_display_decomp(ss, a);
        let pa = path_display(ss.take(a)).len() as int;
        let pb = path_display(ss.take(a + 1)).len() as int;
        assert(s.subrange(0, pa) =~= s.subrange(0, pb).subrange(0, pa));
        assert((path_display(ss.take(a)) + seq!['.'] + ss[a]).subrange(0, pa) =~= path_display(
            ss.take(a),
        ));
    }
}

/// Every character of a display form whose segments hold only
/// identifier characters is a path character.
proof fn lemma_path_display_path_chars(ss: Seq<Seq<char>>)
    requires
        forall|i: int, j: int|
            0 <= i < ss.len() && 0 <= j < ss[i].len() ==> parse::identifier_char(
                #[trigger] ss[i][j],
            ),
    ensures
        forall|j: int|
            0 <= j < path_display(ss).len() ==> parse::path_char(#[trigger] path_display(ss)[j]),
    decreases ss.len(),
{
    if ss.len() > 1 {
        lemma_path_display_path_chars(ss.drop_last());
        assert forall|j: int|
            0 <= j < path_display(ss).len() implies parse::path_char(
            #[trigger] path_display(ss)[j],
        ) by {
            let front = path_display(ss.drop_last());
            if j < front.len() {
                assert(path_display(ss)[j] == front[j]);
            } else if j == front.len() {
                assert(path_display(ss)[j] == '.');
            } else {
                assert(path_display(ss)[j] == ss.last()[j - front.len() - 1]);
                assert(ss[ss.len() - 1] == ss.last());
            }
        }
    } else if ss.len() == 1 {
        assert forall|j: int|
            0 <= j < path_display(ss).len() implies parse::path_char(
            #[trigger] path_display(ss)[j],
        ) by {
            assert(path_display(ss)[j] == ss[0][j]);
        }
    }
}

/// The collecting phase of parsing, run on a display form from the end
/// of segment `idx`, gathers exactly the remaining segments.
proof fn lemma_roundtrip_loop(ss: Seq<Seq<char>>, idx: int)
    requires
        2 <= ss.len(),
        1 <= idx <= ss.len(),
        forall|i: int| 0 <= i < ss.len() ==> #[trigger] ss[i].len() > 0,
        forall|i: int, j: int|
            0 <= i < ss.len() && 0 <= j < ss[i].len() ==> parse::identifier_char(
                #[trigger] ss[i][j],
            ),
    ensures
        parse::segs_loop(
            path_display(ss),
            path_display(ss).len() as int,
            path_display(ss.take(idx)).len() as int,
            ss.take(idx),
        ) == parse::PathParse::PathOk(ss),
    decreases ss.len() - idx,
{
    let s = path_display(ss);
    let vl = s.len() as int;
    let head = path_display(ss.take(idx)).len() as int;
    lemma_path_display_prefix(ss, idx);
    lemma_path_display_path_chars(ss);
    assert(1 <= head) by {
        assert(ss.take(idx).take(1) =~= ss.take(1));
        lemma_path_display_take_le(ss.take(idx), 1);
        assert(path_display(ss.take(1)) == ss[0]);
    }
    if idx == ss.len() {
        // head == vl: the run is exhausted; the residue is empty and
        // parses to nothing, so the collected segments stand.
        assert(ss.take(idx) =~= ss);
        parse::lemma_space_run_exact(s, vl, vl);
        let rest = s.subrange(vl, vl);
        assert(rest.len() == 0);
        assert(parse::path_run(rest, 0) == 0);
        assert(parse::spec_parse_path(rest, false) == parse::PathParse::PathErr(
            parse::ErrorKind::EmptyVariableSegment,
            0int,
        ));
        assert(head == vl);
        assert(parse::segs_loop(s, vl, head, ss.take(idx)) == parse::PathParse::PathOk(
            ss.take(idx),
        ));
    } else {
        lemma_path_display_prefix(ss, idx + 1);
        lemma_path_display_decomp(ss, idx);
        let pb = path_display(ss.take(idx + 1)).len() as int;
        let seg = ss[idx];
        // Characters of the next separator and segment.
        assert forall|j: int| 0 <= j < pb implies #[trigger] s[j] == path_display(
            ss.take(idx + 1),
        )[j] by {
            assert(s.subrange(0, pb)[j] == s[j]);
        }
        assert(s[head] == '.');
        assert forall|j: int| 0 <= j < seg.len() implies #[trigger] s[head + 1 + j] == seg[j] by {
            assert(path_display(ss.take(idx + 1))[head + 1 + j] == seg[j]);
        }
        // The `.` step: the next character is an identifier character.
        assert(s[head + 1] == seg[0]);
        assert(parse::identifier_char(s[head + 1]));
        assert(head + 1 < vl) by {
            lemma_path_display_take_le(ss, idx + 1);
        }
        // The segment step: the identifier run is exactly the segment.
        let tail = s.subrange(head + 1, vl);
        assert forall|j: int| 0 <= j < seg.len() implies parse::identifier_char(
            #[trigger] tail[j],
        ) by {
            assert(tail[j] == s[head + 1 + j]);
            assert(s[head + 1 + j] == seg[j]);
        }
        if head + 1 + seg.len() < vl {
            // The character after the segment is the next separator.
            lemma_path_display_prefix(ss, idx + 2);
            lemma_path_display_decomp(ss, idx + 1);
            let pc = path_display(ss.take(idx + 2)).len() as int;
            assert forall|j: int| 0 <= j < pc implies #[trigger] s[j] == path_display(
                ss.take(idx + 2),
            )[j] by {
                assert(s.subrange(0, pc)[j] == s[j]);
            }
            assert(s[pb] == '.');
            assert(tail[seg.len() as int] == s[head + 1 + seg.len()]);
            assert(!parse::identifier_char(tail[seg.len() as int]));
        }
        parse::lemma_id_run_exact(tail, 0, seg.len() as int);
        assert(parse::seg_scan(tail) == parse::SegParse::SegOk(seg.len() as int));
        assert(tail.subrange(0, seg.len() as int) =~= seg);
        assert(s.subrange(head + 1, head + 1 + seg.len()) =~= seg);
        assert(ss.take(idx) + seq![s.subrange(head + 1, head + 1 + seg.len())] =~= ss.take(
            idx + 1,
        ));
        lemma_roundtrip_loop(ss, idx + 1);
        assert(head + 1 + seg.len() == pb);
        // Step through the separator and the segment.
        assert(head < vl);
        assert(s[head] != ' ');
        assert(parse::segs_loop(s, vl, head, ss.take(idx)) == parse::segs_loop(
            s,
            vl,
            head + 1,
            ss.take(idx),
        ));
        assert(s[head + 1] != ' ' && s[head + 1] != '.');
        assert(parse::segs_loop(s, vl, head + 1, ss.take(idx)) == parse::segs_loop(
            s,
            vl,
            head + 1 + seg.len(),
            ss.take(idx) + seq![s.subrange(head + 1, head + 1 + seg.len())],
        ));
    }
}

/// Round trip of display and parsing: a path of non-empty segments made
/// of identifier characters, displayed with `.` separators and parsed
/// back in strict mode, yields exactly its segments.
pub proof fn lemma_display_parse_roundtrip(ss: Seq<Seq<char>>)
    requires
        ss.len() >= 1,
        forall|i: int| 0 <= i < ss.len() ==> #[trigger] ss[i].len() > 0,
        forall|i: int, j: int|
            0 <= i < ss.len() && 0 <= j < ss[i].len() ==> parse::identifier_char(
                #[trigger] ss[i][j],
            ),
    ensures
        parse::spec_parse_path(path_display(ss), true) == parse::PathParse::PathOk(ss),
{
    let s = path_display(ss);
    let n = ss.len() as int;
    let vl = s.len() as int;
    lemma_path_display_path_chars(ss);
    parse::lemma_path_run_exact(s, 0, vl);
    lemma_path_display_prefix(ss, 1);
    let k = ss[0].len() as int;
    assert(path_display(ss.take(1)) =~= ss[0]);
    assert forall|j: int| 0 <= j < k implies #[trigger] s[j] == ss[0][j] by {
        assert(s.subrange(0, k)[j] == s[j]);
    }
    assert forall|j: int| 0 <= j < k implies parse::identifier_char(#[trigger] s[j]) by {
        assert(s[j] == ss[0][j]);
    }
    if n >= 2 {
        lemma_path_display_prefix(ss, 2);
        lemma_path_display_decomp(ss, 1);
        let pb = path_display(ss.take(2)).len() as int;
        assert forall|j: int| 0 <= j < pb implies #[trigger] s[j] == path_display(
            ss.take(2),
        )[j] by {
            assert(s.subrange(0, pb)[j] == s[j]);
        }
        assert(s[k] == '.');
        assert(!parse::identifier_char('.'));
    }
    parse::lemma_id_run_exact(s, 0, k);
    assert(parse::seg_scan(s) == parse::SegParse::SegOk(k));
    if n == 1 {
        assert(ss.take(1) =~= ss);
        parse::lemma_space_run_exact(s, k, k);
        assert(s.subrange(0, k) =~= ss[0]);
        assert(seq![s.subrange(0, k)] =~= ss);
    } else {
        parse::lemma_space_run_exact(s, k, k);
        assert(s.subrange(0, k) =~= ss[0]);
        assert(seq![s.subrange(0, k)] =~= ss.take(1));
        lemma_roundtrip_loop(ss, 1);
        assert(k < vl) by {
            lemma_path_display_take_le(ss, 2);
            lemma_path_display_decomp(ss, 1);
        }
    }
}

impl Variable {
    /// Convert a variable into one which owns all of its parts.
    ///
    /// Every variable owns its segments, so this returns the variable
    /// unchanged.
    pub fn into_owned(self) -> (r: Variable)
        ensures
            r == self,
    {
        self
    }

    /// Length of the variable's display form, in characters: the lengths
    /// of the segments plus one for each `.` separator.
    pub fn len(&self) -> (r: usize)
        requires
            path_display(var_model(*self)).len() <= usize::MAX,
            var_wf(*self),
        ensures
            r == path_display(var_model(*self)).len(),
    {
        match &self.inner {
            VariableInner::Single(s) => s.unicode_len(),
            VariableInner::Segments(vs) => {
                let ghost model = vs.deep_view();
                let n = vs.len();
                let mut sum: usize = 0;
                let mut i: usize = 0;
                while i < n
                    invariant
                        n == vs@.len(),
                        0 <= i <= n,
                        model == vs.deep_view(),
                        path_display(model).len() <= usize::MAX,
                        sum == path_display(model.take(i as int)).len(),
                    decreases n - i,
                {
                    proof {
                        assert(model.take(i + 1).drop_last() =~= model.take(i as int));
                        assert(model.take(i + 1).last() == model[i as int]);
                        lemma_path_display_take_le(model, i + 1);
                    }
                    let extra = vs[i].unicode_len();
                    if i > 0 {
                        sum += 1;
                    }
                    sum += extra;
                    i += 1;
                }
                proof {
                    assert(model.take(n as int) =~= model);
                }
                sum
            },
        }
    }

    /// Construct a variable out of a single segment.
    ///
    /// The segment must be non-empty and must not contain the `.`
    /// separator; use parsing for dotted paths.
    pub fn single(var: &str) -> (r: Variable)
        requires
            var@.len() > 0,
            !var@.contains('.'),
        ensures
            var_model(r) == seq![var@],
            var_wf(r),
    {
        Variable { inner: VariableInner::Single(var.to_owned()) }
    }

    /// Construct a variable from its segments, given individually.
    ///
    /// There must be at least one part and every part must be non-empty;
    /// a lone part must not contain the `.` separator.
    pub fn from_parts(parts: Vec<String>) -> (r: Variable)
        requires
            parts@.len() >= 1,
            forall|i: int| 0 <= i < parts@.len() ==> #[trigger] parts@[i]@.len() > 0,
            parts@.len() == 1 ==> !parts@[0]@.contains('.'),
        ensures
            var_model(r) == parts.deep_view(),
            var_wf(r),
    {
        let ghost model = parts.deep_view();
        if parts.len() == 1 {
            let mut parts = parts;
            let s = parts.remove(0);
            proof {
                assert(model =~= seq![s@]);
            }
            Variable { inner: VariableInner::Single(s) }
        } else {
            Variable { inner: VariableInner::Segments(parts) }
        }
    }

    /// Join together two variables: the segments of `other` follow the
    /// segments of `self`.
    pub fn join(self, other: Variable) -> (r: Variable)
        requires
            var_wf(self),
            var_wf(other),
        ensures
            var_model(r) == var_model(self) + var_model(other),
            var_wf(r),
    {
        let ghost expected = var_model(self) + var_model(other);
        match self.inner {
            VariableInner::Segments(xs) => match other.inner {
                VariableInner::Segments(ys) => {
                    let mut xs = xs;
                    let mut ys = ys;
                    xs.append(&mut ys);
                    let r = Variable { inner: VariableInner::Segments(xs) };
                    proof {
                        assert(var_model(r) =~= expected);
                    }
                    r
                },
                VariableInner::Single(s) => {
                    let mut xs = xs;
                    xs.push(s);
                    let r = Variable { inner: VariableInner::Segments(xs) };
                    proof {
                        assert(var_model(r) =~= expected);
                    }
                    r
                },
            },
            VariableInner::Single(s) => match other.inner {
                VariableInner::Segments(ys) => {
                    let mut ys = ys;
                    ys.insert(0, s);
                    let r = Variable { inner: VariableInner::Segments(ys) };
                    proof {
                        assert(var_model(r) =~= expected);
                    }
                    r
                },
                VariableInner::Single(y) => {
                    let mut segs: Vec<String> = Vec::new();
                    segs.push(s);
                    segs.push(y);
                    let r = Variable { inner: VariableInner::Segments(segs) };
                    proof {
                        assert(var_model(r) =~= expected);
                    }
                    r
                },
            },
        }
    }

    /// The dotted display form of the variable.
    pub fn to_string(&self) -> (r: String)
        requires
            var_wf(*self),
        ensures
            r@ == path_display(var_model(*self)),
    {
        match &self.inner {
            VariableInner::Single(s) => s.clone(),
            VariableInner::Segments(vs) => {
                let ghost model = vs.deep_view();
                let n = vs.len();
                let mut out = String::new();
                let mut i: usize = 0;
                while i < n
                    invariant
                        n == vs@.len(),
                        0 <= i <= n,
                        model == vs.deep_view(),
                        out@ == path_display(model.take(i as int)),
                    decreases n - i,
                {
                    proof {
                        assert(model.take(i + 1).drop_last() =~= model.take(i as int));
                        assert(model.take(i + 1).last() == model[i as int]);
                    }
                    if i > 0 {
                        out.append(".");
                        proof {
                            reveal_strlit(".");
                        }
                    }
                    out.append(vs[i].as_str());
                    proof {
                        if i == 0 {
                            assert(out@ =~= path_display(model.take(i + 1)));
                        } else {
                            assert(out@ =~= path_display(model.take(i + 1)));
                        }
                    }
                    i += 1;
                }
                proof {
                    assert(model.take(n as int) =~= model);
                }
                out
            },
        }
    }
}

/// Parse a dotted variable path off the front of `s`.
///
/// The scan covers the maximal prefix of identifier characters, spaces
/// and `.`.  With `error_if_invalid` set, any character beyond that
/// prefix is an `InvalidCharacter` error; without it such characters
/// merely terminate the scan, which is how the inside of a `{{ }}`
/// placeholder is parsed (`}}` legitimately follows the path there).
pub fn parse_with_terminator(s: &str, error_if_invalid: bool) -> (r: Result<Variable, parse::Error>)
    ensures
        match parse::spec_parse_path(s@, error_if_invalid) {
            parse::PathParse::PathOk(ss) => {
                &&& r is Ok
                &&& var_model(r->Ok_0) == ss
                &&& var_wf(r->Ok_0)
            },
            parse::PathParse::PathErr(kind, col) => r == Err::<Variable, parse::Error>(
                parse::Error { offset: parse::Location { line: 0, col: col as usize }, ty: kind },
            ),
        },
    decreases s@.len(),
{
    let n = s.unicode_len();
    // Measure the run of path characters.
    let mut vl: usize = 0;
    let mut scanning = true;
    while scanning && vl < n
        invariant
            n == s@.len(),
            0 <= vl <= n,
            forall|j: int| 0 <= j < vl ==> parse::path_char(#[trigger] s@[j]),
            !scanning ==> (vl < n && !parse::path_char(s@[vl as int])),
        decreases n - vl + (if scanning { 1int } else { 0int }),
    {
        let c = s.get_char(vl);
        if parse::identifier_char_exec(c) || c == ' ' || c == '.' {
            vl += 1;
        } else {
            scanning = false;
        }
    }
    proof {
        parse::lemma_path_run_exact(s@, 0, vl as int);
    }
    if error_if_invalid && vl != n {
        let bad = s.get_char(vl);
        return Err(parse::Error::new(
            parse::Location::new(vl, 0),
            parse::ErrorKind::InvalidCharacter { token: bad as u8 },
        ));
    }
    if vl == 0 {
        return Err(parse::Error::new(parse::Location::zero(), parse::ErrorKind::EmptyVariableSegment));
    }
    match parse::try_parse_variable_segment(s) {
        Err(e) => Err(e),
        Ok(seg) => {
            let k = seg.unicode_len();
            proof {
                parse::lemma_id_run_bounds(s@, 0);
            }
            // A run of spaces right after the first segment followed by a
            // `.` is a space adjacent to a separator.
            let sp = parse::space_run_exec(s, k);
            let mut space_dot = false;
            if sp >= 1 && k + sp < n {
                if s.get_char(k + sp) == '.' {
                    space_dot = true;
                }
            }
            if space_dot {
                return Err(parse::Error::new(parse::Location::new(k, 0), parse::ErrorKind::SpaceInPath));
            }
            if k == vl {
                let first = String::from_str(seg);
                let r = Variable { inner: VariableInner::Single(first) };
                proof {
                    assert(var_model(r) =~= seq![s@.subrange(0, k as int)]);
                }
                return Ok(r);
            }
            let mut segments: Vec<String> = Vec::new();
            segments.push(String::from_str(seg));
            let mut head: usize = k;
            let ghost target = parse::segs_loop(s@, vl as int, k as int, seq![s@.subrange(0, k as int)]);
            proof {
                assert(segments.deep_view() =~= seq![s@.subrange(0, k as int)]);
                match parse::seg_scan(s@) {
                    parse::SegParse::SegOk(kk) => {
                        assert(kk == k);
                    },
                    parse::SegParse::SegErr(_, _) => {
                        assert(false);
                    },
                }
                assert(parse::spec_parse_path(s@, error_if_invalid) == target);
            }
            loop
                invariant
                    n == s@.len(),
                    1 <= k <= head <= vl <= n,
                    vl == parse::path_run(s@, 0),
                    forall|j: int| 0 <= j < vl ==> parse::path_char(#[trigger] s@[j]),
                    segments.deep_view().len() >= 1,
                    forall|j: int| 0 <= j < segments.deep_view().len()
                        ==> #[trigger] segments.deep_view()[j].len() > 0,
                    parse::segs_loop(s@, vl as int, head as int, segments.deep_view()) == target,
                    parse::spec_parse_path(s@, error_if_invalid) == target,
                decreases vl - head,
            {
                let ghost model = segments.deep_view();
                if head == vl || s.get_char(head) == ' ' {
                    let sp2 = parse::space_run_exec(s, head);
                    let h2 = head + sp2;
                    let rest = s.substring_char(h2, n);
                    if parse_with_terminator(rest, false).is_ok() {
                        proof {
                            assert(rest@ == s@.subrange(h2 as int, n as int));
                        }
                        return Err(parse::Error::new(
                            parse::Location::new(h2, 0),
                            parse::ErrorKind::TooManyVariablesInBlock,
                        ));
                    } else {
                        proof {
                            assert(rest@ == s@.subrange(h2 as int, n as int));
                            assert(target == parse::PathParse::PathOk(model));
                        }
                        let mut segments = segments;
                        if segments.len() == 1 {
                            let s0 = segments.remove(0);
                            let r = Variable { inner: VariableInner::Single(s0) };
                            proof {
                                assert(model[0].len() > 0);
                                assert(var_model(r) =~= model);
                            }
                            return Ok(r);
                        } else {
                            let r = Variable { inner: VariableInner::Segments(segments) };
                            proof {
                                assert(var_model(r) == model);
                                assert forall|j: int|
                                    0 <= j < segments@.len() implies #[trigger] segments@[j]@.len()
                                    > 0 by {
                                    assert(segments@[j]@ == model[j]);
                                    assert(model[j].len() > 0);
                                }
                            }
                            return Ok(r);
                        }
                    }
                }
                if s.get_char(head) == '.' {
                    if head + 1 == vl || s.get_char(head + 1) == ' ' {
                        return Err(parse::Error::new(
                            parse::Location::new(head, 0),
                            parse::ErrorKind::EmptyVariableSegment,
                        ));
                    }
                    head += 1;
                    continue;
                }
                let tail2 = s.substring_char(head, n);
                match parse::try_parse_variable_segment(tail2) {
                    Err(e) => {
                        proof {
                            assert(tail2@ == s@.subrange(head as int, n as int));
                            parse::lemma_seg_scan_bounds(tail2@);
                        }
                        return Err(e.add_offset(parse::Location::new(head, 0)));
                    },
                    Ok(seg2) => {
                        proof {
                            assert(tail2@ == s@.subrange(head as int, n as int));
                            parse::lemma_seg_scan_bounds(tail2@);
                            match parse::seg_scan(tail2@) {
                                parse::SegParse::SegOk(kk) => {
                                    assert(kk == seg2@.len());
                                },
                                parse::SegParse::SegErr(_, _) => {
                                    assert(false);
                                },
                            }
                        }
                        let k2 = seg2.unicode_len();
                        proof {
                            parse::lemma_id_run_bounds(tail2@, 0);
                            parse::lemma_path_run_bounds(s@, 0);
                            if head + k2 > vl {
                                assert(parse::identifier_char(tail2@[vl - head]));
                                assert(tail2@[vl - head] == s@[vl as int]);
                                assert(false);
                            }
                        }
                        segments.push(String::from_str(seg2));
                        head += k2;
                        proof {
                            assert(seg2@ =~= s@.subrange(head - k2, head as int));
                            assert(segments.deep_view() =~= model + seq![s@.subrange(
                                head - k2,
                                head as int,
                            )]);
                        }
                    },
                }
            }
        },
    }
}

impl core::str::FromStr for Variable {
    type Err = parse::Error;

    /// Parse a dotted variable path; the whole input must be consumed.
    fn from_str(s: &str) -> Result<Variable, parse::Error> {
        parse_with_terminator(s, true)
    }
}

impl Clone for Variable {
    /// Clones the variable; the copy stands for the same path.
    fn clone(&self) -> (res: Self)
        ensures
            var_model(res) == var_model(*self),
            res.inner is Single <==> self.inner is Single,
            var_wf(*self) ==> var_wf(res),
    {
        match &self.inner {
            VariableInner::Single(s) => Variable { inner: VariableInner::Single(s.clone()) },
            VariableInner::Segments(vs) => {
                let ghost model = vs.deep_view();
                let n = vs.len();
                let mut out: Vec<String> = Vec::new();
                let mut i: usize = 0;
                while i < n
                    invariant
                        n == vs@.len(),
                        0 <= i <= n,
                        model == vs.deep_view(),
                        out@.len() == i,
                        forall|j: int| 0 <= j < i ==> #[trigger] out@[j]@ == vs@[j]@,
                    decreases n - i,
                {
                    out.push(vs[i].clone());
                    i += 1;
                }
                let r = Variable { inner: VariableInner::Segments(out) };
                proof {
                    assert(var_model(r) =~= model);
                }
                r
            },
        }
    }
}

} // verus!
