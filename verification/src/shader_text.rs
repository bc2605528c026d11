//! Reading shader sources line by line: splitting text into lines,
//! trimming white space, and recognising `#include` and `#version` lines.

use crate::dom::has_prefix;
use vstd::prelude::*;

verus! {

/// `c` has the Unicode `White_Space` property.
pub open spec fn is_ws(c: char) -> bool {
    ||| '\u{9}' <= c <= '\u{d}'
    ||| c == ' '
    ||| c == '\u{85}'
    ||| c == '\u{a0}'
    ||| c == '\u{1680}'
    ||| '\u{2000}' <= c <= '\u{200a}'
    ||| c == '\u{2028}'
    ||| c == '\u{2029}'
    ||| c == '\u{202f}'
    ||| c == '\u{205f}'
    ||| c == '\u{3000}'
}

/// Whether `c` is white space, as `char::is_whitespace` says.
pub fn is_whitespace(c: char) -> (r: bool)
    ensures
        r == is_ws(c),
{
    ('\u{9}' <= c && c <= '\u{d}') || c == ' ' || c == '\u{85}' || c == '\u{a0}' || c == '\u{1680}' || ('\u{2000}'
        <= c && c <= '\u{200a}') || c == '\u{2028}' || c == '\u{2029}' || c == '\u{202f}' || c == '\u{205f}' || c
        == '\u{3000}'
}

/// `s` without its leading white space.
pub open spec fn trim_start(s: Seq<char>) -> Seq<char>
    decreases s.len(),
{
    if s.len() > 0 && is_ws(s[0]) {
        trim_start(s.drop_first())
    } else {
        s
    }
}

/// `s` without its trailing white space.
pub open spec fn trim_end(s: Seq<char>) -> Seq<char>
    decreases s.len(),
{
    if s.len() > 0 && is_ws(s.last()) {
        trim_end(s.drop_last())
    } else {
        s
    }
}

/// `s` without its leading and trailing white space.
pub open spec fn trim(s: Seq<char>) -> Seq<char> {
    trim_end(trim_start(s))
}

/// `l` without a final carriage return.
pub open spec fn strip_cr(l: Seq<char>) -> Seq<char> {
    if l.len() > 0 && l.last() == '\r' {
        l.drop_last()
    } else {
        l
    }
}

/// `i` is the position of the first newline of `s`.
pub open spec fn first_newline(s: Seq<char>, i: int) -> bool {
    0 <= i < s.len() && s[i] == '\n' && forall|k: int| 0 <= k < i ==> s[k] != '\n'
}

/// The lines of `s`, as `str::lines` gives them: split at each newline, a
/// carriage return before a newline dropped, and no line after a final
/// newline.
pub open spec fn split_lines(s: Seq<char>) -> Seq<Seq<char>>
    decreases s.len(),
{
    if s.len() == 0 {
        Seq::empty()
    } else if exists|i: int| 0 <= i < s.len() && s[i] == '\n' {
        let i = choose|i: int| first_newline(s, i);
        if first_newline(s, i) {
            seq![strip_cr(s.subrange(0, i))] + split_lines(s.subrange(i + 1, s.len() as int))
        } else {
            Seq::empty()
        }
    } else {
        seq![s]
    }
}

/// What a line of a shader source is.
pub enum LineKind {
    /// `#include <name>` or `#include "name"`.
    Include(Seq<char>),
    /// `#include` followed by anything else.
    BadInclude,
    /// A `#version` line.
    Version,
    /// Any other line.
    Plain,
}

/// The name between the delimiters of an include literal, if it has them.
pub open spec fn include_name(lit: Seq<char>) -> Option<Seq<char>> {
    if lit.len() >= 1 && lit[0] == '<' {
        if lit.len() >= 2 && lit.last() == '>' {
            Some(lit.subrange(1, lit.len() - 1))
        } else {
            None
        }
    } else if lit.len() >= 1 && lit[0] == '"' {
        if lit.len() >= 2 && lit.last() == '"' {
            Some(lit.subrange(1, lit.len() - 1))
        } else {
            None
        }
    } else {
        None
    }
}

/// What the line `line` is: its text after leading white space starts with
/// `#include` (then the rest, trimmed, must be a name between `<` and `>`
/// or between double quotes) or with `#version`, or neither.
pub open spec fn line_kind(line: Seq<char>) -> LineKind {
    let t = trim_start(line);
    if has_prefix(t, "#include"@) {
        match include_name(trim(t.subrange(8, t.len() as int))) {
            Some(name) => LineKind::Include(name),
            None => LineKind::BadInclude,
        }
    } else if has_prefix(t, "#version"@) {
        LineKind::Version
    } else {
        LineKind::Plain
    }
}

/// A line of a shader source, as [`classify_line`] finds it.
pub enum ShaderLine {
    Include(String),
    BadInclude,
    Version,
    Plain,
}

/// The position of the first character of `s` at or after `from` that is
/// not white space, or the end.
fn skip_ws(s: &str, from: usize) -> (r: usize)
    requires
        from <= s@.len(),
    ensures
        from <= r <= s@.len(),
        trim_start(s@.subrange(from as int, s@.len() as int)) == s@.subrange(r as int, s@.len() as int),
{
    let n = s.unicode_len();
    let mut i = from;
    while i < n && is_whitespace(s.get_char(i))
        invariant
            n == s@.len(),
            from <= i <= n,
            trim_start(s@.subrange(from as int, n as int)) == trim_start(s@.subrange(i as int, n as int)),
        decreases n - i,
    {
        proof {
            let t = s@.subrange(i as int, n as int);
            assert(t.drop_first() =~= s@.subrange(i + 1, n as int));
        }
        i += 1;
    }
    proof {
        let t = s@.subrange(i as int, n as int);
        if i < n {
            assert(t[0] == s@[i as int]);
        }
    }
    i
}

/// The position just after the last character of `s` before `to` and at
/// or after `from` that is not white space, or `from`.
fn back_ws(s: &str, from: usize, to: usize) -> (r: usize)
    requires
        from <= to <= s@.len(),
    ensures
        from <= r <= to,
        trim_end(s@.subrange(from as int, to as int)) == s@.subrange(from as int, r as int),
{
    let mut j = to;
    while j > from && is_whitespace(s.get_char(j - 1))
        invariant
            from <= j <= to <= s@.len(),
            trim_end(s@.subrange(from as int, to as int)) == trim_end(s@.subrange(from as int, j as int)),
        decreases j,
    {
        proof {
            let t = s@.subrange(from as int, j as int);
            assert(t.drop_last() =~= s@.subrange(from as int, j - 1));
        }
        j -= 1;
    }
    proof {
        let t = s@.subrange(from as int, j as int);
        if j > from {
            assert(t.last() == s@[j - 1]);
        }
    }
    j
}

/// Whether `s` has `prefix` at position `at`.
fn has_text_at(s: &str, at: usize, prefix: &str) -> (r: bool)
    requires
        at <= s@.len(),
    ensures
        r == has_prefix(s@.subrange(at as int, s@.len() as int), prefix@),
{
    let n = s.unicode_len();
    let m = prefix.unicode_len();
    if n - at < m {
        return false;
    }
    let ghost t = s@.subrange(at as int, n as int);
    let mut i: usize = 0;
    while i < m
        invariant
            n == s@.len(),
            m == prefix@.len(),
            at + m <= n,
            t == s@.subrange(at as int, n as int),
            i <= m,
            forall|k: int| 0 <= k < i ==> t[k] == prefix@[k],
        decreases m - i,
    {
        if s.get_char(at + i) != prefix.get_char(i) {
            assert(t.subrange(0, m as int)[i as int] != prefix@[i as int]);
            return false;
        }
        i += 1;
    }
    assert(t.subrange(0, m as int) =~= prefix@);
    true
}

/// Finds out what the shader source line `line` is.
pub fn classify_line(line: &str) -> (r: ShaderLine)
    ensures
        match r {
            ShaderLine::Include(name) => line_kind(line@) == LineKind::Include(name@),
            ShaderLine::BadInclude => line_kind(line@) == LineKind::BadInclude,
            ShaderLine::Version => line_kind(line@) == LineKind::Version,
            ShaderLine::Plain => line_kind(line@) == LineKind::Plain,
        },
{
    proof {
        reveal_strlit("#include");
        reveal_strlit("#version");
    }
    let n = line.unicode_len();
    let a = skip_ws(line, 0);
    assert(line@.subrange(0, n as int) =~= line@);
    let ghost t = line@.subrange(a as int, n as int);
    assert(trim_start(line@) == t);
    if has_text_at(line, a, "#include") {
        let b = skip_ws(line, a + 8);
        let e = back_ws(line, b, n);
        proof {
            let rest = t.subrange(8, t.len() as int);
            assert(rest =~= line@.subrange(a + 8, n as int));
            assert(trim_start(rest) == line@.subrange(b as int, n as int));
            assert(trim(rest) == line@.subrange(b as int, e as int));
        }
        let ghost lit = line@.subrange(b as int, e as int);
        if e - b >= 2 {
            let first = line.get_char(b);
            let last = line.get_char(e - 1);
            assert(lit[0] == first);
            assert(lit.last() == last);
            if (first == '<' && last == '>') || (first == '"' && last == '"') {
                let name = line.substring_char(b + 1, e - 1);
                assert(name@ =~= lit.subrange(1, lit.len() - 1));
                return ShaderLine::Include(String::from_str(name));
            }
        } else if e - b == 1 {
            assert(lit[0] == line@[b as int]);
        }
        ShaderLine::BadInclude
    } else if has_text_at(line, a, "#version") {
        ShaderLine::Version
    } else {
        ShaderLine::Plain
    }
}

proof fn lemma_first_newline_unique(s: Seq<char>, i: int, j: int)
    requires
        first_newline(s, i),
        first_newline(s, j),
    ensures
        i == j,
{
    if i < j {
        assert(s[i] != '\n');
    }
    if j < i {
        assert(s[j] != '\n');
    }
}

/// Splits `text` into its lines, as `str::lines` does.
pub fn split_lines_of(text: &str) -> (r: Vec<String>)
    ensures
        r@.map_values(|l: String| l@) == split_lines(text@),
{
    let n = text.unicode_len();
    let ghost s = text@;
    let mut r: Vec<String> = Vec::new();
    let mut start: usize = 0;
    proof {
        assert(s.subrange(0, n as int) =~= s);
        assert(r@.map_values(|l: String| l@) + split_lines(s) =~= split_lines(s));
    }
    while start < n
        invariant
            n == s.len(),
            s == text@,
            start <= n,
            r@.map_values(|l: String| l@) + split_lines(s.subrange(start as int, n as int)) == split_lines(s),
        decreases n - start,
    {
        let ghost t = s.subrange(start as int, n as int);
        let mut j = start;
        while j < n && text.get_char(j) != '\n'
            invariant
                n == s.len(),
                s == text@,
                start <= j <= n,
                forall|k: int| start <= k < j ==> s[k] != '\n',
            decreases n - j,
        {
            j += 1;
        }
        let ghost before = r@.map_values(|l: String| l@);
        if j < n {
            // A line ended by a newline.
            let mut end = j;
            if end > start && text.get_char(end - 1) == '\r' {
                end -= 1;
            }
            let line = String::from_str(text.substring_char(start, end));
            proof {
                let i = j - start;
                assert(t[i] == '\n');
                assert forall|k: int| 0 <= k < i implies t[k] != '\n' by {
                    assert(t[k] == s[start + k]);
                }
                assert(first_newline(t, i));
                assert(exists|q: int| 0 <= q < t.len() && t[q] == '\n');
                let c = choose|q: int| first_newline(t, q);
                lemma_first_newline_unique(t, c, i);
                assert(t.subrange(0, i) =~= s.subrange(start as int, j as int));
                assert(t.subrange(i + 1, t.len() as int) =~= s.subrange(j + 1, n as int));
                assert(strip_cr(t.subrange(0, i)) =~= line@);
                assert(split_lines(t) == seq![line@] + split_lines(s.subrange(j + 1, n as int)));
            }
            r.push(line);
            proof {
                assert(r@.map_values(|l: String| l@) =~= before.push(line@));
                assert(before.push(line@) + split_lines(s.subrange(j + 1, n as int)) =~= before + (seq![line@]
                    + split_lines(s.subrange(j + 1, n as int))));
            }
            start = j + 1;
        } else {
            // The last line, without a newline.
            let line = String::from_str(text.substring_char(start, n));
            proof {
                assert(line@ =~= t);
                assert forall|q: int| 0 <= q < t.len() implies t[q] != '\n' by {
                    assert(t[q] == s[start + q]);
                }
                assert(split_lines(t) == seq![t]);
                assert(split_lines(s.subrange(n as int, n as int)) =~= Seq::<Seq<char>>::empty()) by {
                    assert(s.subrange(n as int, n as int).len() == 0);
                }
            }
            r.push(line);
            proof {
                assert(r@.map_values(|l: String| l@) =~= before.push(line@));
                assert(before.push(line@) + split_lines(s.subrange(n as int, n as int)) =~= before + seq![t]);
            }
            start = n;
        }
    }
    proof {
        assert(s.subrange(n as int, n as int).len() == 0);
        assert(split_lines(s.subrange(n as int, n as int)) =~= Seq::<Seq<char>>::empty());
        assert(r@.map_values(|l: String| l@) + Seq::<Seq<char>>::empty() =~= r@.map_values(|l: String| l@));
    }
    r
}

} // verus!
