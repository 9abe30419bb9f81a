//! `include "file"` directives: a source is flattened line by line, included
//! files spliced in where they are named, and a source map records which
//! lines of the flattened text come from which file and line.
//!
//! Reading the included files is left to the caller: [`Preprocessor`] is fed
//! the lines of a file one at a time, answers with the path of an included
//! file when a line asks for one, and is handed back that file's own
//! flattened result.

use vstd::prelude::*;
use crate::text::{chars_of, is_space, push_char, push_str, string_from_range, trim_bounds, trim_text};

verus! {

/// Which lines of the flattened text come from which file: lines
/// `flattened_start_line..=flattened_end_line` are the lines of `file_path`
/// from `original_start_line` on.
#[derive(Debug, Clone)]
pub struct SourceSegment {
    pub file_path: String,
    pub flattened_start_line: usize,
    pub flattened_end_line: usize,
    pub original_start_line: usize,
}

/// A flattened source and its source map.
pub struct PreprocessorResult {
    pub flattened_code: String,
    pub source_map: Vec<SourceSegment>,
}

/// Index of the first `c` in `s`, or -1.
pub open spec fn index_of_char(s: Seq<char>, c: char) -> int
    decreases s.len(),
{
    if s.len() == 0 {
        -1
    } else if s[0] == c {
        0
    } else {
        let i = index_of_char(s.drop_first(), c);
        if i < 0 {
            -1
        } else {
            i + 1
        }
    }
}

/// The lines of a text as `str::lines` gives them: split after each `\n`,
/// the `\n` (and a `\r` before it) dropped; a final line ending adds no
/// empty line.
pub open spec fn lines_of(s: Seq<char>) -> Seq<Seq<char>>
    decreases s.len(),
{
    if s.len() == 0 {
        Seq::empty()
    } else {
        let i = index_of_char(s, '\n');
        if i < 0 {
            seq![s]
        } else {
            proof {
                lemma_index_of_char(s, '\n');
            }
            let line = s.take(i);
            let line = if line.len() > 0 && line.last() == '\r' { line.drop_last() } else { line };
            seq![line] + lines_of(s.skip(i + 1))
        }
    }
}

/// The characters of `include `.
pub open spec fn include_keyword() -> Seq<char> {
    seq!['i', 'n', 'c', 'l', 'u', 'd', 'e', ' ']
}

/// The path that a line names in an `include "path"` directive: the line,
/// trimmed, starts with `include ` and holds two double quotes; the path is
/// what lies between the first two.
pub open spec fn included_path(line: Seq<char>) -> Option<Seq<char>> {
    let t = trim_text(line);
    let q1 = index_of_char(t, '"');
    let rest = t.skip(q1 + 1);
    let q2 = index_of_char(rest, '"');
    if t.len() >= 8 && t.take(8) == include_keyword() && q1 >= 0 && q2 >= 0 {
        Some(rest.take(q2))
    } else {
        None
    }
}

/// Whether a line, trimmed, starts with `include `.
pub open spec fn is_include_line(line: Seq<char>) -> bool {
    let t = trim_text(line);
    t.len() >= 8 && t.take(8) == include_keyword()
}

pub proof fn lemma_index_of_char(s: Seq<char>, c: char)
    ensures
        -1 <= index_of_char(s, c) < s.len(),
        index_of_char(s, c) >= 0 ==> s[index_of_char(s, c)] == c,
        forall|j: int| 0 <= j < s.len() && (index_of_char(s, c) < 0 || j < index_of_char(s, c)) ==> s[j] != c,
    decreases s.len(),
{
    if s.len() > 0 && s[0] != c {
        lemma_index_of_char(s.drop_first(), c);
        assert forall|j: int| 0 <= j < s.len() && (index_of_char(s, c) < 0 || j < index_of_char(s, c)) implies s[j] != c by {
            if j > 0 {
                assert(s[j] == s.drop_first()[j - 1]);
            }
        }
    }
}

pub proof fn lemma_index_of_char_unique(s: Seq<char>, c: char, k: int)
    requires
        -1 <= k < s.len(),
        k >= 0 ==> s[k] == c,
        forall|j: int| 0 <= j < s.len() && (k < 0 || j < k) ==> s[j] != c,
    ensures
        index_of_char(s, c) == k,
    decreases s.len(),
{
    if s.len() > 0 && s[0] != c {
        let t = s.drop_first();
        assert forall|j: int| 0 <= j < t.len() && (k - 1 < 0 || j < k - 1) implies t[j] != c by {
            assert(t[j] == s[j + 1]);
        }
        if k > 0 {
            assert(t[k - 1] == s[k]);
            lemma_index_of_char_unique(t, c, k - 1);
        } else {
            assert(k != 0);
            lemma_index_of_char_unique(t, c, -1);
        }
    }
}

/// Index of the first `c` in `cs[from..to]`, counted from `from`.
pub fn find_char_in(cs: &[char], from: usize, to: usize, c: char) -> (r: Option<usize>)
    requires
        from <= to <= cs@.len(),
    ensures
        match r {
            Some(i) => i as int == index_of_char(cs@.subrange(from as int, to as int), c),
            None => index_of_char(cs@.subrange(from as int, to as int), c) == -1,
        },
{
    find_char(cs, from, to, c)
}

fn find_char(cs: &[char], from: usize, to: usize, c: char) -> (r: Option<usize>)
    requires
        from <= to <= cs@.len(),
    ensures
        match r {
            Some(i) => i as int == index_of_char(cs@.subrange(from as int, to as int), c),
            None => index_of_char(cs@.subrange(from as int, to as int), c) == -1,
        },
{
    let ghost s = cs@.subrange(from as int, to as int);
    let mut i = from;
    while i < to
        invariant
            from <= i <= to <= cs@.len(),
            s == cs@.subrange(from as int, to as int),
            forall|j: int| from <= j < i ==> cs@[j] != c,
        decreases to - i,
    {
        if cs[i] == c {
            proof {
                assert forall|j: int| 0 <= j < s.len() && j < i - from implies s[j] != c by {
                    assert(s[j] == cs@[from + j]);
                }
                lemma_index_of_char_unique(s, c, i - from);
            }
            return Some(i - from);
        }
        i = i + 1;
    }
    proof {
        assert forall|j: int| 0 <= j < s.len() implies s[j] != c by {
            assert(s[j] == cs@[from + j]);
        }
        lemma_index_of_char_unique(s, c, -1);
    }
    None
}

/// The lines of a text, as `str::lines` splits it.
pub fn split_lines(content: &str) -> (lines: Vec<String>)
    ensures
        lines@.map_values(|l: String| l@) == lines_of(content@),
{
    let cs = chars_of(content);
    let mut lines: Vec<String> = Vec::new();
    let mut pos: usize = 0;
    proof {
        assert(cs@.skip(0) == cs@);
    }
    while pos < cs.len()
        invariant
            pos <= cs@.len(),
            cs@ == content@,
            lines@.map_values(|l: String| l@) + lines_of(cs@.skip(pos as int)) == lines_of(content@),
        decreases cs@.len() - pos,
    {
        let ghost rest = cs@.skip(pos as int);
        proof {
            assert(cs@.subrange(pos as int, cs@.len() as int) == rest);
            lemma_index_of_char(rest, '\n');
        }
        let ghost before = lines@.map_values(|l: String| l@);
        match find_char(cs.as_slice(), pos, cs.len(), '\n') {
            Some(i) => {
                let mut end = pos + i;
                if end > pos && cs[end - 1] == '\r' {
                    end = end - 1;
                }
                let line = string_from_range(cs.as_slice(), pos, end);
                lines.push(line);
                proof {
                    let l = rest.take(i as int);
                    assert(l =~= cs@.subrange(pos as int, pos + i));
                    if i > 0 && l.last() == '\r' {
                        assert(l.drop_last() =~= cs@.subrange(pos as int, end as int));
                    }
                    assert(rest.skip(i + 1) =~= cs@.skip(pos + i + 1));
                    assert(lines_of(rest) == seq![cs@.subrange(pos as int, end as int)] + lines_of(cs@.skip(pos + i + 1)));
                    assert(lines@.map_values(|l: String| l@) == before.push(cs@.subrange(pos as int, end as int)));
                    assert(before.push(cs@.subrange(pos as int, end as int)) + lines_of(cs@.skip(pos + i + 1))
                        =~= before + lines_of(rest));
                }
                pos = pos + i + 1;
            },
            None => {
                let line = string_from_range(cs.as_slice(), pos, cs.len());
                lines.push(line);
                proof {
                    assert(lines_of(rest) == seq![rest]);
                    assert(cs@.skip(cs@.len() as int) =~= Seq::<char>::empty());
                    assert(lines@.map_values(|l: String| l@) == before.push(rest));
                    assert(before.push(rest) + lines_of(cs@.skip(cs@.len() as int)) =~= before + lines_of(rest));
                }
                pos = cs.len();
            },
        }
    }
    proof {
        assert(cs@.skip(pos as int) =~= Seq::<char>::empty());
        assert(lines@.map_values(|l: String| l@) + Seq::<Seq<char>>::empty() =~= lines@.map_values(|l: String| l@));
    }
    lines
}

/// Number of lines of a text, as `str::lines` counts them.
pub fn line_count(content: &str) -> (n: usize)
    ensures
        n == lines_of(content@).len(),
{
    let lines = split_lines(content);
    lines.len()
}

/// The path named by an `include "path"` directive on this line.
pub fn include_path(line: &str) -> (r: Option<String>)
    ensures
        match included_path(line@) {
            Some(p) => r matches Some(s) && s@ == p,
            None => r is None,
        },
{
    let cs = chars_of(line);
    let (a, e) = trim_bounds(cs.as_slice(), 0, cs.len());
    let ghost t = trim_text(line@);
    proof {
        assert(cs@.subrange(0, cs@.len() as int) == cs@);
        assert(t == cs@.subrange(a as int, e as int));
    }
    if e - a < 8 || cs[a] != 'i' || cs[a + 1] != 'n' || cs[a + 2] != 'c' || cs[a + 3] != 'l' || cs[a + 4] != 'u'
        || cs[a + 5] != 'd' || cs[a + 6] != 'e' || cs[a + 7] != ' ' {
        proof {
            if t.len() >= 8 && t.take(8) == include_keyword() {
                assert(t.take(8)[0] == 'i' && t.take(8)[1] == 'n' && t.take(8)[2] == 'c' && t.take(8)[3] == 'l');
                assert(t.take(8)[4] == 'u' && t.take(8)[5] == 'd' && t.take(8)[6] == 'e' && t.take(8)[7] == ' ');
            }
        }
        return None;
    }
    proof {
        assert(t.take(8) =~= include_keyword());
    }
    match find_char(cs.as_slice(), a, e, '"') {
        None => None,
        Some(q1) => {
            proof {
                lemma_index_of_char(t, '"');
                assert(t.skip(q1 + 1) =~= cs@.subrange(a + q1 + 1, e as int));
            }
            match find_char(cs.as_slice(), a + q1 + 1, e, '"') {
                None => None,
                Some(q2) => {
                    proof {
                        lemma_index_of_char(t.skip(q1 + 1), '"');
                        assert(t.skip(q1 + 1).take(q2 as int) =~= cs@.subrange(a + q1 + 1, a + q1 + 1 + q2));
                    }
                    Some(string_from_range(cs.as_slice(), a + q1 + 1, a + q1 + 1 + q2))
                },
            }
        },
    }
}

/// Flattens one file, fed line by line (see the module documentation).
pub struct Preprocessor {
    pub file_path: String,
    pub flattened_code: String,
    pub source_map: Vec<SourceSegment>,
    pub current_flattened_line: usize,
    pub current_original_line: usize,
    pub current_segment_start: usize,
}

/// The segment that closes the lines of the current file read since the
/// last spliced file, if there are any.
pub open spec fn closing_segment(p: Preprocessor) -> Option<(Seq<char>, int, int, int)> {
    if p.current_flattened_line > p.current_segment_start {
        Some((
            p.file_path@,
            p.current_segment_start as int,
            p.current_flattened_line - 1,
            p.current_original_line - (p.current_flattened_line - p.current_segment_start),
        ))
    } else {
        None
    }
}

/// The fields of a segment.
pub open spec fn segment_fields(s: SourceSegment) -> (Seq<char>, int, int, int) {
    (s.file_path@, s.flattened_start_line as int, s.flattened_end_line as int, s.original_start_line as int)
}

/// The map after closing the current segment.
pub open spec fn closed_map(p: Preprocessor, map: Seq<SourceSegment>) -> bool {
    match closing_segment(p) {
        Some(f) => map.len() == p.source_map@.len() + 1 && map.take(p.source_map@.len() as int) == p.source_map@
            && segment_fields(map.last()) == f,
        None => map == p.source_map@,
    }
}

/// The counters stay consistent: the segment start never passes the
/// current line, and no more flattened lines than source lines are open.
pub open spec fn counters_ok(p: Preprocessor) -> bool {
    &&& 1 <= p.current_segment_start <= p.current_flattened_line
    &&& p.current_flattened_line - p.current_segment_start < p.current_original_line
}

/// Every segment spans at least one line.
pub open spec fn segments_ok(map: Seq<SourceSegment>) -> bool {
    forall|i: int| 0 <= i < map.len() ==> (#[trigger] map[i]).flattened_start_line <= map[i].flattened_end_line
}

/// What feeding `line` does to a preprocessor: the source line count
/// advances; a line naming an included file closes the current segment and
/// gives the path; another `include ` line is dropped; any other line is
/// copied with a line break.
pub open spec fn fed_line(p: Preprocessor, q: Preprocessor, line: Seq<char>, r: Option<String>) -> bool {
    &&& q.file_path == p.file_path
    &&& q.current_original_line == p.current_original_line + 1
    &&& match included_path(line) {
        Some(path) => {
            &&& r matches Some(s) && s@ == path
            &&& closed_map(p, q.source_map@)
            &&& q.flattened_code == p.flattened_code
            &&& q.current_flattened_line == p.current_flattened_line
            &&& q.current_segment_start == p.current_segment_start
        },
        None => {
            &&& r is None
            &&& q.source_map == p.source_map
            &&& q.current_segment_start == p.current_segment_start
            &&& if is_include_line(line) {
                &&& q.flattened_code == p.flattened_code
                &&& q.current_flattened_line == p.current_flattened_line
            } else {
                &&& q.flattened_code@ == p.flattened_code@ + line + seq!['\n']
                &&& q.current_flattened_line == p.current_flattened_line + 1
            }
        },
    }
}

/// What splicing in the result `inc` of an included file does: its segments
/// follow, moved down to where its text starts, and its text follows, with
/// a line break added if the whole does not end with one; the next segment
/// starts after it.
pub open spec fn spliced(p: Preprocessor, q: Preprocessor, inc: PreprocessorResult) -> bool {
    let n = p.source_map@.len();
    let k = p.current_flattened_line - 1;
    let joined = p.flattened_code@ + inc.flattened_code@;
    &&& q.file_path == p.file_path
    &&& q.current_original_line == p.current_original_line
    &&& q.current_flattened_line == p.current_flattened_line + lines_of(inc.flattened_code@).len()
    &&& q.current_segment_start == q.current_flattened_line
    &&& q.source_map@.len() == n + inc.source_map@.len()
    &&& q.source_map@.take(n as int) == p.source_map@
    &&& forall|i: int| 0 <= i < inc.source_map@.len() ==> {
        let s = #[trigger] q.source_map@[n + i];
        let t = inc.source_map@[i];
        &&& s.file_path == t.file_path
        &&& s.original_start_line == t.original_start_line
        &&& s.flattened_start_line == t.flattened_start_line + k
        &&& s.flattened_end_line == t.flattened_end_line + k
    }
    &&& q.flattened_code@ == if joined.len() > 0 && joined.last() == '\n' {
        joined
    } else {
        joined.push('\n')
    }
}

/// What finishing gives: the flattened text, and the map with the current
/// segment closed.
pub open spec fn finished(p: Preprocessor, r: PreprocessorResult) -> bool {
    &&& r.flattened_code == p.flattened_code
    &&& closed_map(p, r.source_map@)
}

impl Preprocessor {
    /// A preprocessor for the file at `file_path`, before its first line.
    pub fn new(file_path: String) -> (p: Self)
        ensures
            p.file_path == file_path,
            p.flattened_code@ == Seq::<char>::empty(),
            p.source_map@ == Seq::<SourceSegment>::empty(),
            p.current_flattened_line == 1,
            p.current_original_line == 1,
            p.current_segment_start == 1,
            counters_ok(p),
    {
        Preprocessor {
            file_path,
            flattened_code: String::new(),
            source_map: Vec::new(),
            current_flattened_line: 1,
            current_original_line: 1,
            current_segment_start: 1,
        }
    }

    fn close_segment(&mut self)
        requires
            counters_ok(*old(self)),
            segments_ok(old(self).source_map@),
        ensures
            closed_map(*old(self), final(self).source_map@),
            segments_ok(final(self).source_map@),
            final(self).file_path == old(self).file_path,
            final(self).flattened_code == old(self).flattened_code,
            final(self).current_flattened_line == old(self).current_flattened_line,
            final(self).current_original_line == old(self).current_original_line,
            final(self).current_segment_start == old(self).current_segment_start,
    {
        if self.current_flattened_line > self.current_segment_start {
            let seg = SourceSegment {
                file_path: self.file_path.clone(),
                flattened_start_line: self.current_segment_start,
                flattened_end_line: self.current_flattened_line - 1,
                original_start_line: self.current_original_line - (self.current_flattened_line - self.current_segment_start),
            };
            let ghost before = self.source_map@;
            self.source_map.push(seg);
            proof {
                assert(self.source_map@.take(before.len() as int) == before);
            }
        }
    }

    /// Takes the next line of the file. A line that, trimmed, starts with
    /// `include ` is not copied; if it names a file between double quotes,
    /// the lines read so far are closed into a segment and the named path is
    /// returned, and the caller hands that file's result to
    /// [`splice`](Self::splice). Any other line is copied.
    #[verifier::spinoff_prover]
    pub fn feed_line(&mut self, line: &str) -> (r: Option<String>)
        requires
            counters_ok(*old(self)),
            segments_ok(old(self).source_map@),
            old(self).current_flattened_line < usize::MAX,
            old(self).current_original_line < usize::MAX,
        ensures
            counters_ok(*final(self)),
            segments_ok(final(self).source_map@),
            fed_line(*old(self), *final(self), line@, r),
    {
        let cs = chars_of(line);
        let (a, e) = trim_bounds(cs.as_slice(), 0, cs.len());
        proof {
            assert(cs@.subrange(0, cs@.len() as int) == cs@);
        }
        let starts_include = e - a >= 8 && cs[a] == 'i' && cs[a + 1] == 'n' && cs[a + 2] == 'c' && cs[a + 3] == 'l'
            && cs[a + 4] == 'u' && cs[a + 5] == 'd' && cs[a + 6] == 'e' && cs[a + 7] == ' ';
        proof {
            let t = trim_text(line@);
            assert(t == cs@.subrange(a as int, e as int));
            if starts_include {
                assert(t.take(8) =~= include_keyword());
            } else if t.len() >= 8 && t.take(8) == include_keyword() {
                assert(t.take(8)[0] == 'i' && t.take(8)[1] == 'n' && t.take(8)[2] == 'c' && t.take(8)[3] == 'l');
                assert(t.take(8)[4] == 'u' && t.take(8)[5] == 'd' && t.take(8)[6] == 'e' && t.take(8)[7] == ' ');
            }
        }
        if starts_include {
            let path = include_path(line);
            if path.is_some() {
                self.close_segment();
            }
            self.current_original_line = self.current_original_line + 1;
            proof {
                assert(is_include_line(line@));
                assert(path is Some ==> closed_map(*old(self), self.source_map@));
            }
            path
        } else {
            push_str(&mut self.flattened_code, line);
            push_char(&mut self.flattened_code, '\n');
            self.current_flattened_line = self.current_flattened_line + 1;
            self.current_original_line = self.current_original_line + 1;
            proof {
                assert(!is_include_line(line@));
                assert(included_path(line@) is None);
                assert(self.flattened_code@ =~= old(self).flattened_code@ + line@ + seq!['\n']);
            }
            None
        }
    }

    /// Splices in the flattened result of the file that the last line
    /// included: its segments, moved down to where its text now starts, and
    /// its text, followed by a line break if the flattened text does not end
    /// with one. The next segment of this file starts after it.
    pub fn splice(&mut self, inc: PreprocessorResult)
        requires
            counters_ok(*old(self)),
            segments_ok(old(self).source_map@),
            segments_ok(inc.source_map@),
            forall|i: int| 0 <= i < inc.source_map@.len() ==> (#[trigger] inc.source_map@[i]).flattened_end_line
                + old(self).current_flattened_line <= usize::MAX + 1,
            old(self).current_flattened_line + lines_of(inc.flattened_code@).len() <= usize::MAX,
        ensures
            counters_ok(*final(self)),
            segments_ok(final(self).source_map@),
            spliced(*old(self), *final(self), inc),
    {
        let ghost start_map = self.source_map@;
        let mut i: usize = 0;
        while i < inc.source_map.len()
            invariant
                i <= inc.source_map@.len(),
                segments_ok(inc.source_map@),
                forall|j: int| 0 <= j < inc.source_map@.len() ==> (#[trigger] inc.source_map@[j]).flattened_end_line
                    + self.current_flattened_line <= usize::MAX + 1,
                counters_ok(*self),
                self.current_flattened_line == old(self).current_flattened_line,
                self.file_path == old(self).file_path,
                self.current_original_line == old(self).current_original_line,
                self.flattened_code == old(self).flattened_code,
                self.current_segment_start == old(self).current_segment_start,
                self.source_map@.len() == start_map.len() + i,
                self.source_map@.take(start_map.len() as int) == start_map,
                segments_ok(self.source_map@),
                forall|j: int| 0 <= j < i ==> {
                    let s = #[trigger] self.source_map@[start_map.len() + j];
                    let t = inc.source_map@[j];
                    &&& s.file_path == t.file_path
                    &&& s.original_start_line == t.original_start_line
                    &&& s.flattened_start_line == t.flattened_start_line + self.current_flattened_line - 1
                    &&& s.flattened_end_line == t.flattened_end_line + self.current_flattened_line - 1
                },
            decreases inc.source_map@.len() - i,
        {
            let seg = &inc.source_map[i];
            assert(seg.flattened_start_line <= seg.flattened_end_line);
            let len = seg.flattened_end_line - seg.flattened_start_line;
            let start = seg.flattened_start_line + (self.current_flattened_line - 1);
            let moved = SourceSegment {
                file_path: seg.file_path.clone(),
                flattened_start_line: start,
                flattened_end_line: start + len,
                original_start_line: seg.original_start_line,
            };
            let ghost before = self.source_map@;
            self.source_map.push(moved);
            proof {
                assert(self.source_map@.take(start_map.len() as int) == start_map) by {
                    assert(before.take(start_map.len() as int) == start_map);
                }
                assert forall|j: int| 0 <= j < i + 1 implies {
                    let s = #[trigger] self.source_map@[start_map.len() + j];
                    let t = inc.source_map@[j];
                    &&& s.file_path == t.file_path
                    &&& s.original_start_line == t.original_start_line
                    &&& s.flattened_start_line == t.flattened_start_line + self.current_flattened_line - 1
                    &&& s.flattened_end_line == t.flattened_end_line + self.current_flattened_line - 1
                } by {
                    if j < i {
                        assert(self.source_map@[start_map.len() + j] == before[start_map.len() + j]);
                    }
                }
            }
            i = i + 1;
        }
        push_str(&mut self.flattened_code, inc.flattened_code.as_str());
        let ends_with_newline = ends_with_newline(&self.flattened_code);
        if !ends_with_newline {
            push_char(&mut self.flattened_code, '\n');
        }
        let lines_added = line_count(inc.flattened_code.as_str());
        self.current_flattened_line = self.current_flattened_line + lines_added;
        self.current_segment_start = self.current_flattened_line;
        proof {
            let joined = old(self).flattened_code@ + inc.flattened_code@;
            if joined.len() > 0 && joined.last() == '\n' {
                assert(self.flattened_code@ =~= joined);
            } else {
                assert(self.flattened_code@ =~= joined.push('\n'));
            }
            assert(self.source_map@.take(start_map.len() as int) =~= old(self).source_map@);
        }
    }

    /// Closes the last segment and hands over the flattened text and map.
    pub fn finish(self) -> (r: PreprocessorResult)
        requires
            counters_ok(self),
            segments_ok(self.source_map@),
        ensures
            finished(self, r),
            segments_ok(r.source_map@),
    {
        let mut p = self;
        p.close_segment();
        PreprocessorResult { flattened_code: p.flattened_code, source_map: p.source_map }
    }
}

/// Whether a text ends with a line break.
fn ends_with_newline(s: &String) -> (b: bool)
    ensures
        b == (s@.len() > 0 && s@.last() == '\n'),
{
    let cs = chars_of(s.as_str());
    cs.len() > 0 && cs[cs.len() - 1] == '\n'
}

/// Where a line of the flattened text comes from: the file and line of the
/// first segment that holds it, or the given file and the line itself when
/// no segment does.
pub open spec fn origin_of(map: Seq<SourceSegment>, line: int, default_file: Seq<char>) -> (Seq<char>, int)
    decreases map.len(),
{
    if map.len() == 0 {
        (default_file, line)
    } else if map[0].flattened_start_line <= line <= map[0].flattened_end_line {
        (map[0].file_path@, map[0].original_start_line + (line - map[0].flattened_start_line))
    } else {
        origin_of(map.drop_first(), line, default_file)
    }
}

/// The file and line that a line of the flattened text comes from.
pub fn locate(map: &Vec<SourceSegment>, line: usize, default_file: &str) -> (r: (String, usize))
    requires
        forall|i: int| 0 <= i < map@.len() ==> (#[trigger] map@[i]).original_start_line + (line - map@[i].flattened_start_line) <= usize::MAX,
    ensures
        (r.0@, r.1 as int) == origin_of(map@, line as int, default_file@),
{
    let mut i: usize = 0;
    proof {
        assert(map@.skip(0) == map@);
    }
    while i < map.len()
        invariant
            i <= map@.len(),
            forall|j: int| 0 <= j < map@.len() ==> (#[trigger] map@[j]).original_start_line + (line - map@[j].flattened_start_line) <= usize::MAX,
            origin_of(map@, line as int, default_file@) == origin_of(map@.skip(i as int), line as int, default_file@),
        decreases map@.len() - i,
    {
        let seg = &map[i];
        proof {
            assert(map@.skip(i as int)[0] == map@[i as int]);
            assert(map@.skip(i as int).drop_first() == map@.skip(i + 1));
        }
        if seg.flattened_start_line <= line && line <= seg.flattened_end_line {
            return (seg.file_path.clone(), seg.original_start_line + (line - seg.flattened_start_line));
        }
        i = i + 1;
    }
    (crate::text::owned(default_file), line)
}

/// A file read without include lines maps back to itself: once its lines
/// have been fed (each advancing the flattened and the source line count
/// alike, with no segment closed), the finished map sends every flattened
/// line to the same line of that file.
pub proof fn lemma_plain_file_maps_to_itself(p: Preprocessor, map: Seq<SourceSegment>, line: int, default_file: Seq<char>)
    requires
        p.source_map@.len() == 0,
        p.current_segment_start == 1,
        p.current_flattened_line == p.current_original_line,
        closed_map(p, map),
        1 <= line < p.current_flattened_line,
    ensures
        origin_of(map, line, default_file) == (p.file_path@, line),
{
    assert(map.len() == 1);
    assert(map[0] == map.last());
}

/// Segments `map`, in order, cover the flattened lines `a..=b`: the first
/// starts at `a`, each next one on the line after the previous one ends,
/// none is empty, and the last ends at `b`.
pub open spec fn tiles(map: Seq<SourceSegment>, a: int, b: int) -> bool
    decreases map.len(),
{
    if map.len() == 0 {
        a == b + 1
    } else {
        &&& map[0].flattened_start_line == a
        &&& map[0].flattened_start_line <= map[0].flattened_end_line
        &&& tiles(map.drop_first(), map[0].flattened_end_line + 1, b)
    }
}

/// Flattened line `l` (counted from 1) of the text whose lines are `lines`
/// is the line of the file that segment `s` names, as far from the line
/// the segment starts with as `l` is from the segment's first line; `files`
/// gives the lines of each file by path.
pub open spec fn line_traced(
    lines: Seq<Seq<char>>,
    s: SourceSegment,
    files: Map<Seq<char>, Seq<Seq<char>>>,
    l: int,
) -> bool {
    let o = s.original_start_line + (l - s.flattened_start_line);
    &&& files.contains_key(s.file_path@)
    &&& 1 <= o <= files[s.file_path@].len()
    &&& 1 <= l <= lines.len()
    &&& lines[l - 1] == files[s.file_path@][o - 1]
}

/// Every line that a segment of `map` covers traces back to its file.
pub open spec fn maps_back(lines: Seq<Seq<char>>, map: Seq<SourceSegment>, files: Map<Seq<char>, Seq<Seq<char>>>) -> bool {
    forall|i: int, l: int|
        0 <= i < map.len() && map[i].flattened_start_line <= l <= map[i].flattened_end_line ==> #[trigger] line_traced(
            lines,
            map[i],
            files,
            l,
        )
}

/// A flattened text and its map agree with the files: the text is empty or
/// ends with a line break, the segments cover its lines in order, and each
/// line is the line of the file that its segment names.
pub open spec fn faithful(code: Seq<char>, map: Seq<SourceSegment>, files: Map<Seq<char>, Seq<Seq<char>>>) -> bool {
    &&& code.len() == 0 || code.last() == '\n'
    &&& tiles(map, 1, lines_of(code).len() as int)
    &&& maps_back(lines_of(code), map, files)
}

/// A preprocessor part way through the file at its path, whose lines
/// `files` gives: the flattened text has one line per line counted, the
/// closed segments cover the lines before the current segment and trace
/// back, and the lines of the current segment are the lines of the file
/// that end just before the next source line.
pub open spec fn reading(p: Preprocessor, files: Map<Seq<char>, Seq<Seq<char>>>) -> bool {
    let f = p.file_path@;
    let first = p.current_original_line - (p.current_flattened_line - p.current_segment_start);
    &&& files.contains_key(f)
    &&& counters_ok(p)
    &&& p.current_original_line - 1 <= files[f].len()
    &&& p.flattened_code@.len() == 0 || p.flattened_code@.last() == '\n'
    &&& lines_of(p.flattened_code@).len() == p.current_flattened_line - 1
    &&& tiles(p.source_map@, 1, p.current_segment_start - 1)
    &&& maps_back(lines_of(p.flattened_code@), p.source_map@, files)
    &&& forall|l: int|
        p.current_segment_start <= l < p.current_flattened_line ==> #[trigger] lines_of(p.flattened_code@)[l - 1]
            == files[f][first + (l - p.current_segment_start) - 1]
}

/// A line as a text is split into: no line break in it, and no carriage
/// return at its end.
pub open spec fn plain_line(line: Seq<char>) -> bool {
    &&& forall|j: int| 0 <= j < line.len() ==> line[j] != '\n'
    &&& !(line.len() > 0 && line.last() == '\r')
}

/// The lines of a text that ends with a line break, followed by more text,
/// are its lines followed by the lines of the rest.
pub proof fn lemma_lines_concat(a: Seq<char>, b: Seq<char>)
    requires
        a.len() == 0 || a.last() == '\n',
    ensures
        lines_of(a + b) == lines_of(a) + lines_of(b),
    decreases a.len(),
{
    if a.len() == 0 {
        assert(a + b =~= b);
        assert(lines_of(a) + lines_of(b) =~= lines_of(b));
    } else {
        let s = a + b;
        lemma_index_of_char(a, '\n');
        let j = index_of_char(a, '\n');
        assert(j >= 0) by {
            if j < 0 {
                assert(a[a.len() - 1] != '\n');
            }
        }
        assert forall|k: int| 0 <= k < s.len() && (j < 0 || k < j) implies s[k] != '\n' by {
            assert(s[k] == a[k]);
        }
        lemma_index_of_char_unique(s, '\n', j);
        let rest = a.skip(j + 1);
        assert(s.take(j) =~= a.take(j));
        assert(s.skip(j + 1) =~= rest + b);
        if rest.len() > 0 {
            assert(rest.last() == a.last());
        }
        lemma_lines_concat(rest, b);
        assert(lines_of(s) =~= lines_of(a) + lines_of(b));
    }
}

/// A plain line followed by a line break is one line.
pub proof fn lemma_lines_one(line: Seq<char>)
    requires
        plain_line(line),
    ensures
        lines_of(line + seq!['\n']) == seq![line],
{
    let s = line + seq!['\n'];
    assert forall|k: int| 0 <= k < s.len() && k < line.len() implies s[k] != '\n' by {
        assert(s[k] == line[k]);
    }
    lemma_index_of_char_unique(s, '\n', line.len() as int);
    assert(s.take(line.len() as int) =~= line);
    assert(s.skip(line.len() + 1int) =~= Seq::<char>::empty());
    assert(lines_of(Seq::<char>::empty()) =~= Seq::<Seq<char>>::empty());
    assert(lines_of(s.skip(line.len() + 1int)) =~= Seq::<Seq<char>>::empty());
    assert(lines_of(s) =~= seq![line] + lines_of(s.skip(line.len() + 1int)));
    assert(lines_of(s) =~= seq![line]);
}

/// Segments that cover `a..=b` followed by segments that cover the lines
/// after it up to `c` cover `a..=c`.
pub proof fn lemma_tiles_append(m1: Seq<SourceSegment>, m2: Seq<SourceSegment>, a: int, b: int, c: int)
    requires
        tiles(m1, a, b),
        tiles(m2, b + 1, c),
    ensures
        tiles(m1 + m2, a, c),
    decreases m1.len(),
{
    if m1.len() == 0 {
        assert(m1 + m2 =~= m2);
    } else {
        lemma_tiles_append(m1.drop_first(), m2, m1[0].flattened_end_line + 1, b, c);
        assert((m1 + m2).drop_first() =~= m1.drop_first() + m2);
        assert((m1 + m2)[0] == m1[0]);
    }
}

/// Segments moved down by `k` lines cover the lines `k` further down.
pub proof fn lemma_tiles_shift(m: Seq<SourceSegment>, m2: Seq<SourceSegment>, a: int, b: int, k: int)
    requires
        tiles(m, a, b),
        m2.len() == m.len(),
        forall|i: int| 0 <= i < m.len() ==> (#[trigger] m2[i]).flattened_start_line == m[i].flattened_start_line + k
            && m2[i].flattened_end_line == m[i].flattened_end_line + k,
    ensures
        tiles(m2, a + k, b + k),
    decreases m.len(),
{
    if m.len() > 0 {
        assert forall|i: int| 0 <= i < m.drop_first().len() implies (#[trigger] m2.drop_first()[i]).flattened_start_line
            == m.drop_first()[i].flattened_start_line + k && m2.drop_first()[i].flattened_end_line
            == m.drop_first()[i].flattened_end_line + k by {
            assert(m2.drop_first()[i] == m2[i + 1]);
            assert(m.drop_first()[i] == m[i + 1]);
        }
        lemma_tiles_shift(m.drop_first(), m2.drop_first(), m[0].flattened_end_line + 1, b, k);
        assert(m2[0].flattened_start_line == m[0].flattened_start_line + k);
    }
}

/// Where segments cover `a..=b` in order, a line among them is found in
/// the one segment that holds it.
proof fn lemma_origin_tiles(map: Seq<SourceSegment>, a: int, b: int, l: int, d: Seq<char>) -> (i: int)
    requires
        tiles(map, a, b),
        a <= l <= b,
    ensures
        0 <= i < map.len(),
        map[i].flattened_start_line <= l <= map[i].flattened_end_line,
        origin_of(map, l, d) == (map[i].file_path@, map[i].original_start_line + (l - map[i].flattened_start_line)),
    decreases map.len(),
{
    if map[0].flattened_start_line <= l && l <= map[0].flattened_end_line {
        0
    } else {
        let j = lemma_origin_tiles(map.drop_first(), map[0].flattened_end_line + 1, b, l, d);
        assert(map.drop_first()[j] == map[j + 1]);
        j + 1
    }
}

/// Closing the current segment of a preprocessor that is reading its file
/// leaves segments that cover every flattened line so far and trace back.
proof fn lemma_close_traced(p: Preprocessor, map: Seq<SourceSegment>, files: Map<Seq<char>, Seq<Seq<char>>>)
    requires
        reading(p, files),
        closed_map(p, map),
    ensures
        tiles(map, 1, p.current_flattened_line - 1),
        maps_back(lines_of(p.flattened_code@), map, files),
{
    let n = p.source_map@.len();
    let lines = lines_of(p.flattened_code@);
    if p.current_flattened_line > p.current_segment_start {
        let seg = map.last();
        assert(map =~= p.source_map@ + seq![seg]) by {
            assert(map.take(n as int) == p.source_map@);
        }
        assert(seq![seg].drop_first() =~= Seq::<SourceSegment>::empty());
        assert(seg.flattened_start_line == p.current_segment_start);
        assert(seg.flattened_end_line == p.current_flattened_line - 1);
        assert(tiles(Seq::<SourceSegment>::empty(), seg.flattened_end_line + 1, p.current_flattened_line - 1));
        assert(tiles(seq![seg], p.current_segment_start as int, p.current_flattened_line - 1));
        lemma_tiles_append(p.source_map@, seq![seg], 1, p.current_segment_start - 1, p.current_flattened_line - 1);
        assert forall|i: int, l: int|
            0 <= i < map.len() && map[i].flattened_start_line <= l <= map[i].flattened_end_line implies #[trigger] line_traced(
            lines,
            map[i],
            files,
            l,
        ) by {
            if i < n {
                assert(map[i] == p.source_map@[i]);
            } else {
                assert(map[i] == seg);
                assert(lines[l - 1] == lines_of(p.flattened_code@)[l - 1]);
            }
        }
    }
}

/// A fresh preprocessor is reading its file from the start.
pub proof fn lemma_fresh_reading(p: Preprocessor, files: Map<Seq<char>, Seq<Seq<char>>>)
    requires
        files.contains_key(p.file_path@),
        p.flattened_code@ == Seq::<char>::empty(),
        p.source_map@ == Seq::<SourceSegment>::empty(),
        p.current_flattened_line == 1,
        p.current_original_line == 1,
        p.current_segment_start == 1,
    ensures
        reading(p, files),
{
    assert(lines_of(p.flattened_code@) == Seq::<Seq<char>>::empty());
}

/// Feeding the next line of the file, when it is not an `include ` line,
/// keeps the preprocessor reading its file: the copied line is traced to
/// that line of the file.
pub proof fn lemma_feed_copies_line(
    p: Preprocessor,
    q: Preprocessor,
    line: Seq<char>,
    r: Option<String>,
    files: Map<Seq<char>, Seq<Seq<char>>>,
)
    requires
        reading(p, files),
        p.current_original_line <= files[p.file_path@].len(),
        line == files[p.file_path@][p.current_original_line - 1],
        plain_line(line),
        !is_include_line(line),
        fed_line(p, q, line, r),
    ensures
        reading(q, files),
{
    assert(included_path(line) is None);
    let lp = lines_of(p.flattened_code@);
    lemma_lines_one(line);
    lemma_lines_concat(p.flattened_code@, line + seq!['\n']);
    assert(q.flattened_code@ =~= p.flattened_code@ + (line + seq!['\n']));
    let lq = lines_of(q.flattened_code@);
    assert(lq =~= lp.push(line));
    assert forall|i: int, l: int|
        0 <= i < q.source_map@.len() && q.source_map@[i].flattened_start_line <= l
            <= q.source_map@[i].flattened_end_line implies #[trigger] line_traced(lq, q.source_map@[i], files, l) by {
        assert(line_traced(lp, p.source_map@[i], files, l));
    }
    let f = p.file_path@;
    let first = p.current_original_line - (p.current_flattened_line - p.current_segment_start);
    assert forall|l: int| q.current_segment_start <= l < q.current_flattened_line implies #[trigger] lq[l - 1]
        == files[f][first + (l - q.current_segment_start) - 1] by {
        if l < p.current_flattened_line {
            assert(lp[l - 1] == files[f][first + (l - p.current_segment_start) - 1]);
        }
    }
}

/// Feeding an `include` line that names a file, then splicing in a
/// faithful, non-empty result for that file, keeps the preprocessor
/// reading its own file: the included lines trace back to the files their
/// segments name.
pub proof fn lemma_include_spliced(
    p: Preprocessor,
    q: Preprocessor,
    s: Preprocessor,
    line: Seq<char>,
    r: Option<String>,
    inc: PreprocessorResult,
    files: Map<Seq<char>, Seq<Seq<char>>>,
)
    requires
        reading(p, files),
        p.current_original_line <= files[p.file_path@].len(),
        included_path(line) is Some,
        fed_line(p, q, line, r),
        spliced(q, s, inc),
        faithful(inc.flattened_code@, inc.source_map@, files),
        inc.flattened_code@.len() > 0,
    ensures
        reading(s, files),
{
    lemma_close_traced(p, q.source_map@, files);
    let lq = lines_of(q.flattened_code@);
    let li = lines_of(inc.flattened_code@);
    let joined = q.flattened_code@ + inc.flattened_code@;
    assert(joined.last() == inc.flattened_code@.last());
    lemma_lines_concat(q.flattened_code@, inc.flattened_code@);
    let ls = lines_of(s.flattened_code@);
    assert(ls == lq + li);
    let n = q.source_map@.len();
    let k = q.current_flattened_line - 1;
    let m2 = s.source_map@.subrange(n as int, s.source_map@.len() as int);
    assert forall|i: int| 0 <= i < inc.source_map@.len() implies (#[trigger] m2[i]).flattened_start_line
        == inc.source_map@[i].flattened_start_line + k && m2[i].flattened_end_line == inc.source_map@[i].flattened_end_line
        + k by {
        assert(m2[i] == s.source_map@[n + i]);
    }
    lemma_tiles_shift(inc.source_map@, m2, 1, li.len() as int, k);
    lemma_tiles_append(q.source_map@, m2, 1, k, k + li.len());
    assert(s.source_map@ =~= q.source_map@ + m2) by {
        assert(s.source_map@.take(n as int) == q.source_map@);
    }
    assert forall|i: int, l: int|
        0 <= i < s.source_map@.len() && s.source_map@[i].flattened_start_line <= l
            <= s.source_map@[i].flattened_end_line implies #[trigger] line_traced(ls, s.source_map@[i], files, l) by {
        if i < n {
            assert(s.source_map@[i] == q.source_map@[i]);
            assert(line_traced(lq, q.source_map@[i], files, l));
        } else {
            let t = inc.source_map@[i - n];
            assert(s.source_map@[n + (i - n)] == s.source_map@[i]);
            assert(line_traced(li, t, files, l - k));
            assert(ls[l - 1] == li[l - k - 1]);
        }
    }
}

/// Finishing a preprocessor that is reading its file gives a faithful
/// result: every flattened line traces back to the line of the file that
/// its segment names.
pub proof fn lemma_finish_faithful(p: Preprocessor, r: PreprocessorResult, files: Map<Seq<char>, Seq<Seq<char>>>)
    requires
        reading(p, files),
        finished(p, r),
    ensures
        faithful(r.flattened_code@, r.source_map@, files),
{
    lemma_close_traced(p, r.source_map@, files);
}

/// In a faithful result, [`locate`] sends each flattened line to a file and
/// line whose text is that line: the line-to-source law of flattening.
pub proof fn lemma_faithful_locates(
    code: Seq<char>,
    map: Seq<SourceSegment>,
    files: Map<Seq<char>, Seq<Seq<char>>>,
    l: int,
    default_file: Seq<char>,
)
    requires
        faithful(code, map, files),
        1 <= l <= lines_of(code).len(),
    ensures
        ({
            let (f, o) = origin_of(map, l, default_file);
            &&& files.contains_key(f)
            &&& 1 <= o <= files[f].len()
            &&& lines_of(code)[l - 1] == files[f][o - 1]
        }),
{
    let i = lemma_origin_tiles(map, 1, lines_of(code).len() as int, l, default_file);
    assert(line_traced(lines_of(code), map[i], files, l));
}

/// The lines of each file, by path.
pub open spec fn file_lines(files: Map<Seq<char>, Seq<char>>) -> Map<Seq<char>, Seq<Seq<char>>> {
    files.map_values(|c: Seq<char>| lines_of(c))
}

/// A preprocessor as [`Preprocessor::new`] makes it for the file at `path`.
pub open spec fn fresh(p: Preprocessor, path: Seq<char>) -> bool {
    &&& p.file_path@ == path
    &&& p.flattened_code@ == Seq::<char>::empty()
    &&& p.source_map@ == Seq::<SourceSegment>::empty()
    &&& p.current_flattened_line == 1
    &&& p.current_original_line == 1
    &&& p.current_segment_start == 1
}

/// A record of flattening one file: the preprocessors before and after each
/// line is fed (`ps`), just after each line is fed (`mids`), the answer to
/// each line (`outs`), and, for each line, the result spliced in after it
/// (`incs`) with the record of how that result was made (`subs`).
pub struct IncludeRun {
    pub ps: Seq<Preprocessor>,
    pub mids: Seq<Preprocessor>,
    pub outs: Seq<Option<String>>,
    pub incs: Seq<PreprocessorResult>,
    pub subs: Seq<IncludeRun>,
}

/// `run` records flattening the file at `path` into `r`, with `files`
/// holding the text of each file and `resolve` finding an included file
/// from the including file's path and the path its line names: a fresh
/// preprocessor is fed every line of the file in turn; after a line that
/// names a file, that file's result, itself recorded by a sub-run, is
/// spliced in; and the last preprocessor is finished into `r`.
pub open spec fn run_ok(
    files: Map<Seq<char>, Seq<char>>,
    resolve: spec_fn(Seq<char>, Seq<char>) -> Seq<char>,
    path: Seq<char>,
    run: IncludeRun,
    r: PreprocessorResult,
) -> bool
    decreases run,
{
    let lines = lines_of(files[path]);
    &&& files.contains_key(path)
    &&& run.ps.len() == lines.len() + 1
    &&& run.mids.len() == lines.len()
    &&& run.outs.len() == lines.len()
    &&& run.incs.len() == lines.len()
    &&& run.subs.len() == lines.len()
    &&& fresh(run.ps[0], path)
    &&& forall|k: int|
        0 <= k < lines.len() ==> {
            &&& #[trigger] fed_line(run.ps[k], run.mids[k], lines[k], run.outs[k])
            &&& match included_path(lines[k]) {
                Some(rel) => run_ok(files, resolve, resolve(path, rel), run.subs[k], run.incs[k]) && spliced(
                    run.mids[k],
                    run.ps[k + 1],
                    run.incs[k],
                ),
                None => run.ps[k + 1] == run.mids[k],
            }
        }
    &&& finished(run.ps[lines.len() as int], r)
}

/// A line of the file at `path` ends up in the flattened text: it is
/// copied, or it includes a file of which some line does.
pub open spec fn line_yields(
    files: Map<Seq<char>, Seq<char>>,
    resolve: spec_fn(Seq<char>, Seq<char>) -> Seq<char>,
    path: Seq<char>,
    line: Seq<char>,
    depth: nat,
) -> bool
    decreases depth, 0nat, 0int,
{
    match included_path(line) {
        Some(rel) => depth > 0 && yields_from(files, resolve, resolve(path, rel), 0, (depth - 1) as nat),
        None => !is_include_line(line),
    }
}

/// Some line of the file at `path`, from line `k` (counted from 0) on,
/// ends up in the flattened text.
pub open spec fn yields_from(
    files: Map<Seq<char>, Seq<char>>,
    resolve: spec_fn(Seq<char>, Seq<char>) -> Seq<char>,
    path: Seq<char>,
    k: int,
    depth: nat,
) -> bool
    decreases depth, 1nat, lines_of(files[path]).len() - k,
{
    if 0 <= k < lines_of(files[path]).len() {
        line_yields(files, resolve, path, lines_of(files[path])[k], depth) || yields_from(files, resolve, path, k + 1, depth)
    } else {
        false
    }
}

/// Some line of the file at `path` ends up in the flattened text.
pub open spec fn yields_lines(
    files: Map<Seq<char>, Seq<char>>,
    resolve: spec_fn(Seq<char>, Seq<char>) -> Seq<char>,
    path: Seq<char>,
    depth: nat,
) -> bool {
    yields_from(files, resolve, path, 0, depth)
}

/// The files reached from `path` within `depth` levels are fit to be
/// flattened: each exists, its lines end in no carriage return, each line
/// that starts with `include ` names a path between double quotes, and
/// each included file yields some line.
pub open spec fn sources_ok(
    files: Map<Seq<char>, Seq<char>>,
    resolve: spec_fn(Seq<char>, Seq<char>) -> Seq<char>,
    path: Seq<char>,
    depth: nat,
) -> bool
    decreases depth,
{
    let lines = lines_of(files[path]);
    &&& files.contains_key(path)
    &&& forall|k: int|
        0 <= k < lines.len() ==> {
            &&& plain_line(#[trigger] lines[k])
            &&& is_include_line(lines[k]) ==> included_path(lines[k]) is Some
            &&& match included_path(lines[k]) {
                Some(rel) => depth > 0 && yields_lines(files, resolve, resolve(path, rel), (depth - 1) as nat)
                    && sources_ok(files, resolve, resolve(path, rel), (depth - 1) as nat),
                None => true,
            }
        }
}

/// The steps `k..` of a run over the file at `path` keep the preprocessor
/// reading the file, one source line per step; once a line that yields
/// has been read, the flattened text has a line.
proof fn lemma_run_from(
    files: Map<Seq<char>, Seq<char>>,
    resolve: spec_fn(Seq<char>, Seq<char>) -> Seq<char>,
    path: Seq<char>,
    run: IncludeRun,
    r: PreprocessorResult,
    depth: nat,
    k: int,
)
    requires
        sources_ok(files, resolve, path, depth),
        run_ok(files, resolve, path, run, r),
        0 <= k <= lines_of(files[path]).len(),
        reading(run.ps[k], file_lines(files)),
        run.ps[k].file_path@ == path,
        run.ps[k].current_original_line == k + 1,
    ensures
        reading(run.ps[lines_of(files[path]).len() as int], file_lines(files)),
        run.ps[lines_of(files[path]).len() as int].current_flattened_line >= run.ps[k].current_flattened_line,
        yields_from(files, resolve, path, k, depth) ==> run.ps[lines_of(files[path]).len() as int].current_flattened_line >= 2,
    decreases depth, 0nat, (lines_of(files[path]).len() - k) as nat,
{
    let lines = lines_of(files[path]);
    let fl = file_lines(files);
    if k < lines.len() {
        let line = lines[k];
        assert(fed_line(run.ps[k], run.mids[k], lines[k], run.outs[k]));
        assert(plain_line(line));
        assert(fl[path] == lines);
        match included_path(line) {
            Some(rel) => {
                let t = resolve(path, rel);
                assert(yields_lines(files, resolve, t, (depth - 1) as nat));
                assert(sources_ok(files, resolve, t, (depth - 1) as nat));
                lemma_resolved_faithful(files, resolve, t, run.subs[k], run.incs[k], (depth - 1) as nat);
                lemma_include_spliced(run.ps[k], run.mids[k], run.ps[k + 1], line, run.outs[k], run.incs[k], fl);
            },
            None => {
                assert(!is_include_line(line));
                lemma_feed_copies_line(run.ps[k], run.ps[k + 1], line, run.outs[k], fl);
            },
        }
        lemma_run_from(files, resolve, path, run, r, depth, k + 1);
    }
}

/// Resolving includes maps every flattened line back to its source: where
/// the files reached from `path` are fit to be flattened, any run that
/// flattens the file gives a text and map faithful to the files (the
/// segments cover the lines from 1 on, one after another, the last ending
/// at the last line, and each line is the line of the file its segment
/// names), and a file that yields some line flattens to a text with at
/// least one line.
pub proof fn lemma_resolved_faithful(
    files: Map<Seq<char>, Seq<char>>,
    resolve: spec_fn(Seq<char>, Seq<char>) -> Seq<char>,
    path: Seq<char>,
    run: IncludeRun,
    r: PreprocessorResult,
    depth: nat,
)
    requires
        sources_ok(files, resolve, path, depth),
        run_ok(files, resolve, path, run, r),
    ensures
        faithful(r.flattened_code@, r.source_map@, file_lines(files)),
        yields_lines(files, resolve, path, depth) ==> lines_of(r.flattened_code@).len() > 0,
    decreases depth, 1nat, 0nat,
{
    let lines = lines_of(files[path]);
    let fl = file_lines(files);
    assert(fl.contains_key(path));
    lemma_fresh_reading(run.ps[0], fl);
    lemma_run_from(files, resolve, path, run, r, depth, 0);
    lemma_finish_faithful(run.ps[lines.len() as int], r, fl);
}

} // verus!

