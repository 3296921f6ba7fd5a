//! The source map: registers source files, assigns each a stable numeric
//! identity, and resolves byte offsets to line/column positions.
//!
//! Lines are 1-based; columns are 1-based and count bytes from the start of
//! the line.

use vstd::prelude::*;
use crate::error::Error;

verus! {

/// Number of newline bytes among the first `n` bytes of `s`.
pub open spec fn count_newlines(s: Seq<u8>, n: int) -> int
    decreases n,
{
    if n <= 0 {
        0
    } else {
        count_newlines(s, n - 1) + if s[n - 1] == 10 { 1int } else { 0int }
    }
}

/// Start offset of the line containing offset `n` of `s`: the largest
/// `j <= n` with `j == 0` or a newline at `j - 1`.
pub open spec fn line_start(s: Seq<u8>, n: int) -> int
    decreases n,
{
    if n <= 0 {
        0
    } else if s[n - 1] == 10 {
        n
    } else {
        line_start(s, n - 1)
    }
}

/// The 1-based line number of byte offset `off` in `s`.
pub open spec fn line_of(s: Seq<u8>, off: int) -> int {
    1 + count_newlines(s, off)
}

/// The 1-based byte column of byte offset `off` in `s`.
pub open spec fn col_of(s: Seq<u8>, off: int) -> int {
    off - line_start(s, off) + 1
}

/// Start offset of line `line`, scanning from offset `i`: `None` when fewer
/// than `line` lines begin at or after `i`.
pub open spec fn find_line_start(s: Seq<u8>, line: int, i: int) -> Option<int>
    decreases s.len() - i,
{
    if line <= 1 {
        Some(i)
    } else if i >= s.len() {
        None
    } else if s[i] == 10 {
        find_line_start(s, line - 1, i + 1)
    } else {
        find_line_start(s, line, i + 1)
    }
}

/// The byte offset of the 1-based position `(line, col)` in `s`, or `None`
/// when `s` has no such position.
pub open spec fn spec_offset_of(s: Seq<u8>, line: int, col: int) -> Option<int> {
    if line < 1 {
        None
    } else {
        match find_line_start(s, line, 0) {
            None => None,
            Some(st) => {
                if 1 <= col && st + col - 1 <= s.len() && (forall|j: int|
                    st <= j < st + col - 1 ==> s[j] != 10) {
                    Some(st + col - 1)
                } else {
                    None
                }
            },
        }
    }
}

proof fn lemma_count_newlines_bounds(s: Seq<u8>, n: int)
    requires
        n >= 0,
    ensures
        0 <= count_newlines(s, n) <= n,
    decreases n,
{
    if n > 0 {
        lemma_count_newlines_bounds(s, n - 1);
    }
}

proof fn lemma_find_line_start_props(s: Seq<u8>, line: int, i: int)
    requires
        line >= 1,
        0 <= i <= s.len(),
    ensures
        find_line_start(s, line, i) matches Some(st) ==> i <= st <= s.len()
            && count_newlines(s, st) == count_newlines(s, i) + line - 1
            && (line >= 2 ==> s[st - 1] == 10)
            && (line == 1 ==> st == i),
    decreases s.len() - i,
{
    if line <= 1 {
    } else if i >= s.len() {
    } else if s[i] == 10 {
        lemma_find_line_start_props(s, line - 1, i + 1);
    } else {
        lemma_find_line_start_props(s, line, i + 1);
    }
}

proof fn lemma_no_newline_segment(s: Seq<u8>, a: int, b: int)
    requires
        0 <= a <= b <= s.len(),
        forall|j: int| a <= j < b ==> s[j] != 10,
    ensures
        count_newlines(s, b) == count_newlines(s, a),
        line_start(s, b) == line_start(s, a),
    decreases b - a,
{
    if b > a {
        lemma_no_newline_segment(s, a, b - 1);
    }
}

/// Law: position resolution round-trips. Converting a line/column position
/// to a byte offset and resolving that offset back yields the original line
/// and column, for every position the text actually has.
pub proof fn lemma_position_round_trip(s: Seq<u8>, line: int, col: int)
    ensures
        spec_offset_of(s, line, col) matches Some(off) ==> 0 <= off <= s.len()
            && line_of(s, off) == line
            && col_of(s, off) == col,
{
    if line >= 1 {
        match find_line_start(s, line, 0) {
            None => {},
            Some(st) => {
                lemma_find_line_start_props(s, line, 0);
                if 1 <= col && st + col - 1 <= s.len() && (forall|j: int|
                    st <= j < st + col - 1 ==> s[j] != 10) {
                    let off = st + col - 1;
                    lemma_no_newline_segment(s, st, off);
                    assert(count_newlines(s, 0) == 0);
                    assert(st == 0 || s[st - 1] == 10);
                    assert(line_start(s, st) == st);
                    assert(line_of(s, off) == line);
                    assert(col_of(s, off) == col);
                }
            },
        }
    }
}

/// One registered source file: its display name and its immutable text.
#[derive(Debug)]
pub struct SourceFile {
    /// The display name supplied at registration.
    pub name: String,
    /// The raw bytes of the file's text.
    pub contents: Vec<u8>,
}

/// The registry of source files of one compilation session.
#[derive(Debug)]
pub struct SourceMap {
    /// The registered files; a file's identity is its index here.
    pub files: Vec<SourceFile>,
}

impl SourceMap {
    /// Every registered file is small enough that a 1-based line or column
    /// within it fits in a machine word.
    pub open spec fn wf(self) -> bool {
        forall|i: int| 0 <= i < self.files@.len()
            ==> (#[trigger] self.files@[i]).contents@.len() < usize::MAX
    }

    /// True when `file` was assigned by this source map.
    pub open spec fn is_registered(self, file: u32) -> bool {
        (file as int) < self.files@.len()
    }

    /// The text of a registered file.
    pub open spec fn contents_of(self, file: u32) -> Seq<u8> {
        self.files@[file as int].contents@
    }

    /// Creates an empty source map for a new compilation session.
    pub fn new() -> (r: Self)
        ensures
            r.wf(),
            r.files@.len() == 0,
    {
        SourceMap { files: Vec::new() }
    }

    /// Registers a file and assigns it the next unused identity.
    ///
    /// No two calls on one source map return the same identity.
    pub fn register(&mut self, name: String, contents: Vec<u8>) -> (id: u32)
        requires
            old(self).wf(),
            old(self).files@.len() < u32::MAX,
            contents@.len() < usize::MAX,
        ensures
            final(self).wf(),
            id == old(self).files@.len(),
            final(self).files@ == old(self).files@.push((SourceFile { name, contents })),
            final(self).is_registered(id),
            final(self).contents_of(id) == contents@,
    {
        let id = self.files.len() as u32;
        let ghost pre = self.files@;
        self.files.push(SourceFile { name, contents });
        proof {
            assert forall|i: int| 0 <= i < self.files@.len()
                implies (#[trigger] self.files@[i]).contents@.len() < usize::MAX by {
                if i < pre.len() {
                    assert(self.files@[i] == pre[i]);
                }
            }
        }
        id
    }

    /// Returns the stored text of a registered file, and `UnknownFile` for an
    /// identity this source map never assigned.
    pub fn lookup(&self, file: u32) -> (r: Result<&Vec<u8>, Error>)
        ensures
            match r {
                Ok(c) => self.is_registered(file) && c@ == self.contents_of(file),
                Err(e) => !self.is_registered(file) && e == (Error::UnknownFile { file }),
            },
    {
        if (file as usize) < self.files.len() {
            Ok(&self.files[file as usize].contents)
        } else {
            Err(Error::UnknownFile { file })
        }
    }

    /// Resolves a byte offset within a registered file to its 1-based line
    /// and 1-based byte column.
    pub fn resolve_position(&self, file: u32, offset: usize) -> (r: Result<(usize, usize), Error>)
        requires
            self.wf(),
        ensures
            match r {
                Ok(lc) => self.is_registered(file)
                    && offset <= self.contents_of(file).len()
                    && lc.0 == line_of(self.contents_of(file), offset as int)
                    && lc.1 == col_of(self.contents_of(file), offset as int),
                Err(e) => if !self.is_registered(file) {
                    e == (Error::UnknownFile { file })
                } else {
                    offset > self.contents_of(file).len()
                        && e == (Error::OffsetOutOfRange { file, offset })
                },
            },
    {
        if (file as usize) >= self.files.len() {
            return Err(Error::UnknownFile { file });
        }
        let s = &self.files[file as usize].contents;
        if offset > s.len() {
            return Err(Error::OffsetOutOfRange { file, offset });
        }
        let mut line: usize = 1;
        let mut ls: usize = 0;
        let mut i: usize = 0;
        while i < offset
            invariant
                i <= offset,
                offset <= s@.len(),
                s@.len() < usize::MAX,
                s@ == self.contents_of(file),
                line == 1 + count_newlines(s@, i as int),
                ls == line_start(s@, i as int),
                ls <= i,
            decreases offset - i,
        {
            proof {
                lemma_count_newlines_bounds(s@, i as int);
            }
            if s[i] == 10 {
                line = line + 1;
                ls = i + 1;
            }
            i = i + 1;
        }
        Ok((line, offset - ls + 1))
    }

    /// Converts a 1-based line/column position within a registered file to
    /// the byte offset it names: the inverse of `resolve_position`, intended
    /// for tests and diagnostics. Returns `None` when the file is unknown or
    /// the file's text has no such position.
    pub fn position_to_offset(&self, file: u32, line: usize, col: usize) -> (r: Option<usize>)
        ensures
            match r {
                Some(off) => self.is_registered(file)
                    && spec_offset_of(self.contents_of(file), line as int, col as int)
                        == Some(off as int),
                None => !self.is_registered(file)
                    || spec_offset_of(self.contents_of(file), line as int, col as int)
                        is None,
            },
    {
        if (file as usize) >= self.files.len() {
            return None;
        }
        let s = &self.files[file as usize].contents;
        if line < 1 || col < 1 {
            return None;
        }
        let mut rem: usize = line;
        let mut i: usize = 0;
        while rem > 1
            invariant
                1 <= rem <= line,
                i <= s@.len(),
                s@ == self.contents_of(file),
                find_line_start(s@, line as int, 0) == find_line_start(s@, rem as int, i as int),
            decreases s@.len() - i, rem,
        {
            if i >= s.len() {
                return None;
            }
            if s[i] == 10 {
                rem = rem - 1;
            }
            i = i + 1;
        }
        assert(find_line_start(s@, line as int, 0) == Some(i as int));
        let st = i;
        let mut cur: usize = st;
        let mut k: usize = 0;
        while k < col - 1
            invariant
                cur == st + k,
                k <= col - 1,
                1 <= col,
                st <= cur <= s@.len(),
                s@ == self.contents_of(file),
                find_line_start(s@, line as int, 0) == Some(st as int),
                forall|j: int| st <= j < cur ==> s@[j] != 10,
            decreases col - k,
        {
            if cur >= s.len() {
                assert(st + col - 1 > s@.len());
                return None;
            }
            if s[cur] == 10 {
                assert(!(forall|j: int| st <= j < st + col - 1 ==> s@[j] != 10));
                return None;
            }
            cur = cur + 1;
            k = k + 1;
        }
        assert(cur == st + col - 1);
        Some(cur)
    }
}

/// Law: registering two files in turn, whatever their names and contents,
/// yields distinct identities, and each identity looks up its own entry.
pub proof fn lemma_distinct_file_identities(files: Seq<SourceFile>, f1: SourceFile, f2: SourceFile)
    ensures
        files.len() != files.push(f1).len(),
        files.push(f1).push(f2)[files.len() as int] == f1,
        files.push(f1).push(f2)[files.push(f1).len() as int] == f2,
{
}

} // verus!
