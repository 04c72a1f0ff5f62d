use vstd::prelude::*;

verus! {

/// Horizontal whitespace inside an instrument line: spaces, tabs, and a
/// stray carriage return all separate a label from its numeric token.
pub open spec fn is_space(c: char) -> bool {
    c == ' ' || c == '\t' || c == '\r'
}

/// A line is blank when every character on it is whitespace.
pub open spec fn is_blank(line: Seq<char>) -> bool {
    forall|i: int| 0 <= i < line.len() ==> is_space(#[trigger] line[i])
}

/// Index of the first occurrence of `c` in `s`, if any.
pub open spec fn find_char(s: Seq<char>, c: char) -> Option<int>
    decreases s.len(),
{
    if s.len() == 0 {
        None
    } else if s[0] == c {
        Some(0)
    } else {
        match find_char(s.skip(1), c) {
            None => None,
            Some(i) => Some(i + 1),
        }
    }
}

/// `find_char` returns the least index holding `c`, or `None` when `c`
/// does not occur.
pub proof fn lemma_find_char(s: Seq<char>, c: char)
    ensures
        match find_char(s, c) {
            Some(i) => 0 <= i < s.len() && s[i] == c && forall|j: int|
                0 <= j < i ==> s[j] != c,
            None => forall|j: int| 0 <= j < s.len() ==> s[j] != c,
        },
    decreases s.len(),
{
    if s.len() == 0 {
    } else if s[0] == c {
    } else {
        lemma_find_char(s.skip(1), c);
        match find_char(s.skip(1), c) {
            None => {
                assert forall|j: int| 0 <= j < s.len() implies s[j] != c by {
                    if j > 0 {
                        assert(s.skip(1)[j - 1] == s[j]);
                    }
                }
            },
            Some(i) => {
                assert(s.skip(1)[i] == s[i + 1]);
                assert forall|j: int| 0 <= j < i + 1 implies s[j] != c by {
                    if j > 0 {
                        assert(s.skip(1)[j - 1] == s[j]);
                    }
                }
            },
        }
    }
}

/// `s` with trailing whitespace removed.
pub open spec fn rstrip(s: Seq<char>) -> Seq<char>
    decreases s.len(),
{
    if s.len() > 0 && is_space(s.last()) {
        rstrip(s.drop_last())
    } else {
        s
    }
}

/// `s` with leading whitespace removed.
pub open spec fn lstrip(s: Seq<char>) -> Seq<char>
    decreases s.len(),
{
    if s.len() > 0 && is_space(s[0]) {
        lstrip(s.skip(1))
    } else {
        s
    }
}

/// `s` with whitespace removed from both ends.
pub open spec fn trim(s: Seq<char>) -> Seq<char> {
    lstrip(rstrip(s))
}

/// `rstrip` keeps exactly the prefix that ends at the last
/// non-whitespace character.
pub proof fn lemma_rstrip(s: Seq<char>)
    ensures
        ({
            let r = rstrip(s);
            &&& 0 <= r.len() <= s.len()
            &&& r == s.take(r.len() as int)
            &&& r.len() > 0 ==> !is_space(s[r.len() - 1])
            &&& forall|j: int| r.len() <= j < s.len() ==> is_space(#[trigger] s[j])
        }),
    decreases s.len(),
{
    if s.len() > 0 && is_space(s.last()) {
        lemma_rstrip(s.drop_last());
        let r = rstrip(s);
        assert(s.drop_last().take(r.len() as int) == s.take(r.len() as int));
        assert forall|j: int| r.len() <= j < s.len() implies is_space(#[trigger] s[j]) by {
            if j < s.len() - 1 {
                assert(s.drop_last()[j] == s[j]);
            }
        }
    } else {
        assert(rstrip(s) == s.take(s.len() as int));
    }
}

/// `lstrip` keeps exactly the suffix that starts at the first
/// non-whitespace character.
pub proof fn lemma_lstrip(s: Seq<char>)
    ensures
        ({
            let r = lstrip(s);
            let b = s.len() - r.len();
            &&& 0 <= b <= s.len()
            &&& r == s.skip(b)
            &&& r.len() > 0 ==> !is_space(s[b])
            &&& forall|j: int| 0 <= j < b ==> is_space(#[trigger] s[j])
        }),
    decreases s.len(),
{
    if s.len() > 0 && is_space(s[0]) {
        lemma_lstrip(s.skip(1));
        let r = lstrip(s);
        let b = s.len() - r.len();
        assert(s.skip(1).skip(b - 1) == s.skip(b));
        assert forall|j: int| 0 <= j < b implies is_space(#[trigger] s[j]) by {
            if j > 0 {
                assert(s.skip(1)[j - 1] == s[j]);
            }
        }
        if r.len() > 0 {
            assert(s.skip(1)[b - 1] == s[b]);
        }
    } else {
        assert(lstrip(s) == s.skip(0));
    }
}

/// Whether `c` is ASCII horizontal whitespace, as `is_space` defines it.
pub fn is_space_exec(c: char) -> (r: bool)
    ensures
        r == is_space(c),
{
    c == ' ' || c == '\t' || c == '\r'
}

/// A line with one trailing carriage return removed, so that text with
/// Windows line endings splits into the same lines as Unix text.
pub open spec fn strip_cr(line: Seq<char>) -> Seq<char> {
    if line.len() > 0 && line.last() == '\r' {
        line.drop_last()
    } else {
        line
    }
}

/// Splits the remainder `s`, with `cur` the part of the current line
/// read so far.
pub open spec fn split_lines_rec(s: Seq<char>, cur: Seq<char>) -> Seq<Seq<char>>
    decreases s.len(),
{
    if s.len() == 0 {
        seq![strip_cr(cur)]
    } else if s[0] == '\n' {
        seq![strip_cr(cur)] + split_lines_rec(s.skip(1), Seq::empty())
    } else {
        split_lines_rec(s.skip(1), cur.push(s[0]))
    }
}

/// The lines of `s`: the text split at each newline, with one carriage
/// return stripped from the end of each line. Empty text is one empty
/// line; a trailing newline yields a final empty line.
pub open spec fn split_lines(s: Seq<char>) -> Seq<Seq<char>> {
    split_lines_rec(s, Seq::empty())
}

/// The views of a sequence of borrowed string slices.
pub open spec fn line_views(ls: Seq<&str>) -> Seq<Seq<char>> {
    ls.map_values(|l: &str| l@)
}

/// Index of the first line equal to `m`, if any.
pub open spec fn find_line(ls: Seq<Seq<char>>, m: Seq<char>) -> Option<int>
    decreases ls.len(),
{
    if ls.len() == 0 {
        None
    } else if ls[0] == m {
        Some(0)
    } else {
        match find_line(ls.skip(1), m) {
            None => None,
            Some(i) => Some(i + 1),
        }
    }
}

/// `find_line` returns the least index whose line equals `m`, or `None`
/// when no line does.
pub proof fn lemma_find_line(ls: Seq<Seq<char>>, m: Seq<char>)
    ensures
        match find_line(ls, m) {
            Some(i) => 0 <= i < ls.len() && ls[i] == m && forall|j: int|
                0 <= j < i ==> ls[j] != m,
            None => forall|j: int| 0 <= j < ls.len() ==> ls[j] != m,
        },
    decreases ls.len(),
{
    if ls.len() == 0 {
    } else if ls[0] == m {
    } else {
        lemma_find_line(ls.skip(1), m);
        match find_line(ls.skip(1), m) {
            None => {
                assert forall|j: int| 0 <= j < ls.len() implies ls[j] != m by {
                    if j > 0 {
                        assert(ls.skip(1)[j - 1] == ls[j]);
                    }
                }
            },
            Some(i) => {
                assert(ls.skip(1)[i] == ls[i + 1]);
                assert forall|j: int| 0 <= j < i + 1 implies ls[j] != m by {
                    if j > 0 {
                        assert(ls.skip(1)[j - 1] == ls[j]);
                    }
                }
            },
        }
    }
}

/// Splits raw text into its lines, as `split_lines` describes.
#[verifier::loop_isolation(false)]
pub fn split_lines_exec<'a>(s: &'a str) -> (lines: Vec<&'a str>)
    ensures
        line_views(lines@) == split_lines(s@),
{
    let n = s.unicode_len();
    let mut lines: Vec<&'a str> = Vec::new();
    proof {
        assert(s@.skip(0) =~= s@);
        assert(s@.subrange(0, 0) =~= Seq::<char>::empty());
        assert(line_views(lines@) =~= Seq::<Seq<char>>::empty());
        assert(line_views(lines@) + split_lines_rec(s@, Seq::<char>::empty()) =~= split_lines(
            s@,
        ));
    }
    let mut start: usize = 0;
    let mut i: usize = 0;
    while i < n
        invariant
            0 <= start <= i <= n,
            forall|j: int| start <= j < i ==> s@[j] != '\n',
            split_lines(s@) == line_views(lines@) + split_lines_rec(
                s@.skip(i as int),
                s@.subrange(start as int, i as int),
            ),
        decreases n - i,
    {
        let ghost cur = s@.subrange(start as int, i as int);
        let c = s.get_char(i);
        if c == '\n' {
            let cend: usize = if i > start && s.get_char(i - 1) == '\r' {
                i - 1
            } else {
                i
            };
            let line = s.substring_char(start, cend);
            proof {
                assert(s@.skip(i as int)[0] == '\n');
                assert(s@.skip(i as int).skip(1) =~= s@.skip(i + 1));
                if cend < i {
                    assert(cur.last() == '\r');
                    assert(strip_cr(cur) =~= s@.subrange(start as int, cend as int));
                } else {
                    assert(strip_cr(cur) =~= s@.subrange(start as int, cend as int));
                }
                assert(line_views(lines@.push(line)) =~= line_views(lines@) + seq![line@]);
                assert(s@.subrange(i + 1, i + 1) =~= Seq::<char>::empty());
            }
            lines.push(line);
            start = i + 1;
        } else {
            proof {
                assert(s@.skip(i as int)[0] == s@[i as int]);
                assert(s@.skip(i as int).skip(1) =~= s@.skip(i + 1));
                assert(s@.subrange(start as int, i + 1) =~= cur.push(s@[i as int]));
            }
        }
        i += 1;
    }
    let ghost cur = s@.subrange(start as int, n as int);
    let cend: usize = if n > start && s.get_char(n - 1) == '\r' {
        n - 1
    } else {
        n
    };
    let line = s.substring_char(start, cend);
    proof {
        if cend < n {
            assert(cur.last() == '\r');
            assert(strip_cr(cur) =~= s@.subrange(start as int, cend as int));
        } else {
            assert(strip_cr(cur) =~= s@.subrange(start as int, cend as int));
        }
        assert(line_views(lines@.push(line)) =~= line_views(lines@) + seq![line@]);
    }
    lines.push(line);
    proof {
        assert(line_views(lines@) =~= split_lines(s@));
    }
    lines
}

/// Finds the first line equal to `marker`, as `find_line` describes.
#[verifier::loop_isolation(false)]
pub fn find_line_exec(lines: &Vec<&str>, marker: &str) -> (res: Option<usize>)
    ensures
        match res {
            Some(i) => find_line(line_views(lines@), marker@) == Some(i as int),
            None => find_line(line_views(lines@), marker@) is None,
        },
{
    proof {
        lemma_find_line(line_views(lines@), marker@);
    }
    let n = lines.len();
    let mut i: usize = 0;
    while i < n
        invariant
            0 <= i <= n == lines@.len(),
            forall|j: int| 0 <= j < i ==> line_views(lines@)[j] != marker@,
        decreases n - i,
    {
        if str_eq(lines[i], marker) {
            proof {
                assert(line_views(lines@)[i as int] == marker@);
            }
            return Some(i);
        }
        proof {
            assert(line_views(lines@)[i as int] == lines@[i as int]@);
        }
        i += 1;
    }
    None
}

/// Relies on `String::push`: appends exactly the one character to the
/// end of the string.
#[verifier::external_body]
pub(crate) fn push_char(s: &mut String, c: char)
    ensures
        final(s)@ == old(s)@.push(c),
{
    s.push(c);
}

/// Whether two string slices hold the same characters.
pub fn str_eq(a: &str, b: &str) -> (r: bool)
    ensures
        r == (a@ == b@),
{
    let na = a.unicode_len();
    let nb = b.unicode_len();
    if na != nb {
        return false;
    }
    let mut i: usize = 0;
    while i < na
        invariant
            na == a@.len(),
            na == b@.len(),
            0 <= i <= na,
            forall|j: int| 0 <= j < i ==> a@[j] == b@[j],
        decreases na - i,
    {
        if a.get_char(i) != b.get_char(i) {
            return false;
        }
        i += 1;
    }
    proof {
        assert(a@ =~= b@);
    }
    true
}

} // verus!
