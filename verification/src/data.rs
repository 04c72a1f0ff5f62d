use vstd::prelude::*;
use crate::number::Number;
use crate::number::parse_number;
use crate::number::parse_number_exec;
use crate::text::is_space;
use crate::text::is_space_exec;
use crate::text::is_blank;
use crate::text::rstrip;
use crate::text::lstrip;
use crate::text::trim;
use crate::text::lemma_rstrip;
use crate::text::lemma_lstrip;
use crate::text::split_lines;
use crate::text::split_lines_exec;
use crate::text::line_views;
use crate::text::find_line;
use crate::text::find_line_exec;
use crate::text::lemma_find_line;
use crate::configstore::ConfigStore;

verus! {

/// One measurement: an instrument-defined label and its value. Its
/// position among the other rows of the same record fixes its column on
/// export.
#[derive(Clone, Debug, PartialEq)]
pub struct Row {
    /// The measurement's label, e.g. `P (mm)`.
    pub header: String,
    /// The measured value.
    pub value: Number,
}

/// The mathematical content of a `Row`.
#[verifier::ext_equal]
pub struct RowView {
    pub header: Seq<char>,
    pub value: Number,
}

impl View for Row {
    type V = RowView;

    open spec fn view(&self) -> RowView {
        RowView { header: self.header@, value: self.value }
    }
}

impl DeepView for Row {
    type V = RowView;

    open spec fn deep_view(&self) -> RowView {
        self.view()
    }
}

impl Row {
    /// Creates a new Row with given header and value.
    pub fn new(header: String, value: Number) -> (r: Row)
        ensures
            r@ == (RowView { header: header@, value }),
    {
        Row { header, value }
    }
}

/// All the data of one processed instrument file: the test's name,
/// derived from the file name, and its rows in file order.
#[derive(Clone, Debug, PartialEq)]
pub struct Data {
    /// The name of the test run, the source file's stem.
    pub test_name: String,
    /// The measurements, in file order.
    pub row_data: Vec<Row>,
}

/// The mathematical content of a `Data`.
#[verifier::ext_equal]
pub struct DataView {
    pub test_name: Seq<char>,
    pub row_data: Seq<RowView>,
}

impl View for Data {
    type V = DataView;

    open spec fn view(&self) -> DataView {
        DataView { test_name: self.test_name@, row_data: self.row_data.deep_view() }
    }
}

impl DeepView for Data {
    type V = DataView;

    open spec fn deep_view(&self) -> DataView {
        self.view()
    }
}

impl Data {
    /// Creates a new Data struct with given test_name, empty row_data.
    pub fn new(test_name: String) -> (d: Data)
        ensures
            d@.test_name == test_name@,
            d@.row_data == Seq::<RowView>::empty(),
    {
        let d = Data { test_name, row_data: Vec::new() };
        proof {
            assert(d.row_data.deep_view() =~= Seq::<RowView>::empty());
        }
        d
    }

    /// Creates a new Data struct with given test_name and row_data.
    pub fn new1(test_name: String, row_data: Vec<Row>) -> (d: Data)
        ensures
            d@.test_name == test_name@,
            d@.row_data == row_data.deep_view(),
    {
        Data { test_name, row_data }
    }
}

/// Why a raw instrument file yields no record.
#[derive(Clone, Debug, PartialEq)]
pub enum ParseError {
    /// No line of the file equals the configured marker.
    MarkerNotFound,
    /// A line after the marker is not a label followed by a numeric
    /// token: `line` is its one-based position in the file, `content`
    /// its text.
    MalformedRow { line: usize, content: String },
}

/// The mathematical content of a `ParseError`.
pub enum ParseErrorView {
    MarkerNotFound,
    MalformedRow { line: int, content: Seq<char> },
}

impl View for ParseError {
    type V = ParseErrorView;

    open spec fn view(&self) -> ParseErrorView {
        match self {
            ParseError::MarkerNotFound => ParseErrorView::MarkerNotFound,
            ParseError::MalformedRow { line, content } => ParseErrorView::MalformedRow {
                line: *line as int,
                content: content@,
            },
        }
    }
}

/// The start of the trailing run of non-whitespace characters of `l`:
/// where the numeric token of a data line begins.
pub open spec fn token_start(l: Seq<char>) -> int
    decreases l.len(),
{
    if l.len() == 0 {
        0
    } else if is_space(l.last()) {
        l.len() as int
    } else {
        token_start(l.drop_last())
    }
}

/// Any index whose suffix is all non-whitespace and which sits at the
/// start of that run is `token_start`.
pub proof fn lemma_token_start_pin(l: Seq<char>, k: int)
    requires
        0 <= k <= l.len(),
        forall|j: int| k <= j < l.len() ==> !is_space(#[trigger] l[j]),
        k > 0 ==> is_space(l[k - 1]),
    ensures
        token_start(l) == k,
    decreases l.len(),
{
    if l.len() == 0 {
    } else if is_space(l.last()) {
        assert(k == l.len());
    } else {
        assert(k < l.len());
        lemma_token_start_pin(l.drop_last(), k);
    }
}

/// Any boundary that leaves only whitespace after it, and none right
/// before it, is where `rstrip` cuts.
pub proof fn lemma_rstrip_pin(l: Seq<char>, e: int)
    requires
        0 <= e <= l.len(),
        forall|j: int| e <= j < l.len() ==> is_space(#[trigger] l[j]),
        e > 0 ==> !is_space(l[e - 1]),
    ensures
        rstrip(l) == l.take(e),
{
    lemma_rstrip(l);
    let r = rstrip(l);
    if r.len() < e {
        assert(is_space(l[e - 1]));
        assert(false);
    }
    if r.len() > e {
        assert(is_space(l[r.len() - 1]));
        assert(false);
    }
}

/// Any boundary with only whitespace before it, and none at it, is
/// where `lstrip` cuts.
pub proof fn lemma_lstrip_pin(l: Seq<char>, b: int)
    requires
        0 <= b <= l.len(),
        forall|j: int| 0 <= j < b ==> is_space(#[trigger] l[j]),
        b < l.len() ==> !is_space(l[b]),
    ensures
        lstrip(l) == l.skip(b),
{
    lemma_lstrip(l);
    let r = lstrip(l);
    let b0 = l.len() - r.len();
    if b0 < b {
        assert(!is_space(l[b0]));
        assert(false);
    }
    if b0 > b {
        assert(is_space(l[b]));
        assert(false);
    }
}

/// How one data line decomposes: everything up to the line's last
/// whitespace gap, trimmed, is the label; the trailing run of
/// non-whitespace characters is the numeric token. The line is a row
/// exactly when the label is non-empty and the token is a number.
pub open spec fn parse_line(line: Seq<char>) -> Option<RowView> {
    let r = rstrip(line);
    let k = token_start(r);
    let label = trim(r.take(k));
    let token = r.skip(k);
    if label.len() == 0 {
        None
    } else {
        match parse_number(token) {
            None => None,
            Some(value) => Some(RowView { header: label, value }),
        }
    }
}

/// Decomposes one data line, as `parse_line` describes.
#[verifier::loop_isolation(false)]
pub fn parse_line_exec(line: &str) -> (res: Option<Row>)
    ensures
        match res {
            Some(row) => parse_line(line@) == Some(row@),
            None => parse_line(line@) is None,
        },
{
    let n = line.unicode_len();
    // Cut trailing whitespace: `e` becomes the rstripped length.
    let mut e: usize = n;
    while e > 0 && is_space_exec(line.get_char(e - 1))
        invariant
            0 <= e <= n,
            forall|j: int| e <= j < n ==> is_space(#[trigger] line@[j]),
        decreases e,
    {
        e -= 1;
    }
    proof {
        lemma_rstrip_pin(line@, e as int);
    }
    let ghost r = rstrip(line@);
    // Walk back over the numeric token: `k` becomes its start.
    let mut k: usize = e;
    while k > 0 && !is_space_exec(line.get_char(k - 1))
        invariant
            0 <= k <= e,
            forall|j: int| k <= j < e ==> !is_space(#[trigger] line@[j]),
        decreases k,
    {
        k -= 1;
    }
    proof {
        assert(forall|j: int| 0 <= j < e ==> r[j] == line@[j]);
        lemma_token_start_pin(r, k as int);
    }
    // Trim the label on both sides: it spans `[ls, le)`.
    let mut le: usize = k;
    while le > 0 && is_space_exec(line.get_char(le - 1))
        invariant
            0 <= le <= k,
            forall|j: int| le <= j < k ==> is_space(#[trigger] line@[j]),
        decreases le,
    {
        le -= 1;
    }
    let mut ls: usize = 0;
    while ls < le && is_space_exec(line.get_char(ls))
        invariant
            0 <= ls <= le,
            forall|j: int| 0 <= j < ls ==> is_space(#[trigger] line@[j]),
        decreases le - ls,
    {
        ls += 1;
    }
    proof {
        let before = r.take(k as int);
        assert(before =~= line@.take(k as int));
        assert(forall|j: int| 0 <= j < k ==> before[j] == line@[j]);
        lemma_rstrip_pin(before, le as int);
        let stripped = rstrip(before);
        assert(stripped =~= line@.take(le as int));
        assert(forall|j: int| 0 <= j < le ==> stripped[j] == line@[j]);
        lemma_lstrip_pin(stripped, ls as int);
        assert(trim(before) =~= line@.subrange(ls as int, le as int));
    }
    if ls == le {
        return None;
    }
    // Copy the token out and read it as a number.
    let mut tok: Vec<char> = Vec::new();
    let mut i: usize = k;
    while i < e
        invariant
            k <= i <= e,
            tok@ =~= line@.subrange(k as int, i as int),
        decreases e - i,
    {
        tok.push(line.get_char(i));
        i += 1;
    }
    proof {
        assert(tok@ =~= r.skip(k as int));
    }
    match parse_number_exec(&tok) {
        None => None,
        Some(value) => {
            let header = line.substring_char(ls, le).to_owned();
            Some(Row { header, value })
        },
    }
}

/// How the lines after the marker become rows, with `base` the one-based
/// file position of `ls[0]`: blank lines are passed over, every other
/// line must decompose as `parse_line` describes, and the first line
/// that does not stops the whole file with its position and text.
pub open spec fn parse_rows(ls: Seq<Seq<char>>, base: int) -> Result<Seq<RowView>, (int, Seq<char>)>
    decreases ls.len(),
{
    if ls.len() == 0 {
        Ok(Seq::empty())
    } else if is_blank(ls[0]) {
        parse_rows(ls.skip(1), base + 1)
    } else {
        match parse_line(ls[0]) {
            None => Err((base, ls[0])),
            Some(row) => match parse_rows(ls.skip(1), base + 1) {
                Ok(rest) => Ok(seq![row] + rest),
                Err(e) => Err(e),
            },
        }
    }
}

/// Index of the last `.` in `s`, if any.
pub open spec fn find_last_dot(s: Seq<char>) -> Option<int>
    decreases s.len(),
{
    if s.len() == 0 {
        None
    } else if s.last() == '.' {
        Some(s.len() - 1)
    } else {
        find_last_dot(s.drop_last())
    }
}

pub proof fn lemma_find_last_dot_some(s: Seq<char>, d: int)
    requires
        0 <= d < s.len(),
        s[d] == '.',
        forall|j: int| d < j < s.len() ==> s[j] != '.',
    ensures
        find_last_dot(s) == Some(d),
    decreases s.len(),
{
    if s.last() == '.' {
        assert(d == s.len() - 1);
    } else {
        lemma_find_last_dot_some(s.drop_last(), d);
    }
}

pub proof fn lemma_find_last_dot_none(s: Seq<char>)
    requires
        forall|j: int| 0 <= j < s.len() ==> s[j] != '.',
    ensures
        find_last_dot(s) is None,
    decreases s.len(),
{
    if s.len() > 0 {
        lemma_find_last_dot_none(s.drop_last());
    }
}

/// The test name a file name yields: the name with its extension
/// stripped, that is, the part before the last dot - unless the dot is
/// the leading character or there is none, when the whole name stands.
pub open spec fn file_stem(name: Seq<char>) -> Seq<char> {
    match find_last_dot(name) {
        None => name,
        Some(d) => if d == 0 {
            name
        } else {
            name.take(d)
        },
    }
}

/// Derives the test name from the file name, as `file_stem` describes.
#[verifier::loop_isolation(false)]
pub fn file_stem_exec(name: &str) -> (s: String)
    ensures
        s@ == file_stem(name@),
{
    let n = name.unicode_len();
    let mut i: usize = n;
    while i > 0 && name.get_char(i - 1) != '.'
        invariant
            0 <= i <= n,
            forall|j: int| i <= j < n ==> name@[j] != '.',
        decreases i,
    {
        i -= 1;
    }
    if i > 1 {
        proof {
            lemma_find_last_dot_some(name@, i - 1);
        }
        name.substring_char(0, i - 1).to_owned()
    } else {
        proof {
            if i == 1 {
                lemma_find_last_dot_some(name@, 0);
            } else {
                lemma_find_last_dot_none(name@);
            }
        }
        name.to_owned()
    }
}

/// What parsing one raw file comes to: the lines are split, the first
/// line equal to the marker is found - without it the file is refused -
/// and everything after it is read as rows; the record's name is the
/// file name's stem. A marker with no rows after it is a record with no
/// rows, not an error.
pub open spec fn parse_file(name: Seq<char>, text: Seq<char>, marker: Seq<char>) -> Result<
    DataView,
    ParseErrorView,
> {
    let ls = split_lines(text);
    match find_line(ls, marker) {
        None => Err(ParseErrorView::MarkerNotFound),
        Some(mi) => match parse_rows(ls.skip(mi + 1), mi + 2) {
            Err(e) => Err(ParseErrorView::MalformedRow { line: e.0, content: e.1 }),
            Ok(rows) => Ok(DataView { test_name: file_stem(name), row_data: rows }),
        },
    }
}

/// Parses one raw instrument file into a record, guided by the
/// configured marker, exactly as `parse_file` describes: `Ok` with the
/// record on success, the fitting `ParseError` otherwise, and never a
/// partial record.
#[verifier::loop_isolation(false)]
pub fn read_data_from_file(file_name: &str, file_contents: &str, config: &ConfigStore) -> (res:
    Result<Data, ParseError>)
    ensures
        ({
            let spec_res = parse_file(file_name@, file_contents@, config@.read_start_header);
            match res {
                Ok(d) => spec_res == Ok::<DataView, ParseErrorView>(d@),
                Err(e) => spec_res == Err::<DataView, ParseErrorView>(e@),
            }
        }),
{
    let lines = split_lines_exec(file_contents);
    let ghost ls = line_views(lines@);
    let mi = match find_line_exec(&lines, config.read_start_header.as_str()) {
        None => {
            return Err(ParseError::MarkerNotFound);
        },
        Some(mi) => mi,
    };
    proof {
        lemma_find_line(ls, config@.read_start_header);
    }
    let mut rows: Vec<Row> = Vec::new();
    let mut i: usize = mi + 1;
    proof {
        assert(rows.deep_view() =~= Seq::<RowView>::empty());
        assert(ls.skip(mi + 1).skip(0) =~= ls.skip(mi + 1));
        match parse_rows(ls.skip(i as int), i + 1) {
            Ok(rest) => {
                assert(rows.deep_view() + rest =~= rest);
            },
            Err(_) => {},
        }
    }
    while i < lines.len()
        invariant
            mi + 1 <= i <= lines@.len(),
            parse_rows(ls.skip(mi + 1), mi + 2) == (match parse_rows(ls.skip(i as int), i + 1) {
                Ok(rest) => Ok::<Seq<RowView>, (int, Seq<char>)>(rows.deep_view() + rest),
                Err(e) => Err::<Seq<RowView>, (int, Seq<char>)>(e),
            }),
        decreases lines@.len() - i,
    {
        let line = lines[i];
        proof {
            assert(ls.skip(i as int)[0] == line@);
            assert(ls.skip(i as int).skip(1) =~= ls.skip(i + 1));
        }
        if is_blank_exec(line) {
        } else {
            match parse_line_exec(line) {
                None => {
                    return Err(ParseError::MalformedRow { line: i + 1, content: line.to_owned() });
                },
                Some(row) => {
                    let ghost old_dv = rows.deep_view();
                    rows.push(row);
                    proof {
                        assert(rows.deep_view() =~= old_dv + seq![row@]);
                        match parse_rows(ls.skip(i + 1), i + 2) {
                            Ok(rest) => {
                                assert(old_dv + (seq![row@] + rest) =~= (old_dv + seq![row@])
                                    + rest);
                            },
                            Err(_) => {},
                        }
                    }
                },
            }
        }
        i += 1;
    }
    proof {
        assert(ls.skip(lines@.len() as int) =~= Seq::<Seq<char>>::empty());
        assert(rows.deep_view() + Seq::<RowView>::empty() =~= rows.deep_view());
    }
    let name = file_stem_exec(file_name);
    Ok(Data { test_name: name, row_data: rows })
}

/// A blank line never decomposes as a row.
pub proof fn lemma_blank_line_no_row(l: Seq<char>)
    requires
        is_blank(l),
    ensures
        parse_line(l) is None,
{
    lemma_rstrip(l);
    let r = rstrip(l);
    if r.len() > 0 {
        assert(is_space(l[r.len() - 1]));
        assert(false);
    }
    assert(r =~= Seq::<char>::empty());
}

/// The rows that a sequence of data lines carries: one per non-blank
/// line, in order, each as `parse_line` reads it.
pub open spec fn rows_of_lines(ls: Seq<Seq<char>>) -> Seq<RowView>
    decreases ls.len(),
{
    if ls.len() == 0 {
        Seq::empty()
    } else if is_blank(ls[0]) {
        rows_of_lines(ls.skip(1))
    } else {
        seq![parse_line(ls[0])->0] + rows_of_lines(ls.skip(1))
    }
}

pub proof fn lemma_parse_rows_all_ok(ls: Seq<Seq<char>>, base: int)
    requires
        forall|j: int| 0 <= j < ls.len() && !is_blank(#[trigger] ls[j]) ==> parse_line(
            ls[j],
        ) is Some,
    ensures
        parse_rows(ls, base) == Ok::<Seq<RowView>, (int, Seq<char>)>(rows_of_lines(ls)),
    decreases ls.len(),
{
    if ls.len() == 0 {
    } else {
        assert forall|j: int|
            0 <= j < ls.skip(1).len() && !is_blank(#[trigger] ls.skip(1)[j]) implies parse_line(
            ls.skip(1)[j],
        ) is Some by {
            assert(ls.skip(1)[j] == ls[j + 1]);
        }
        lemma_parse_rows_all_ok(ls.skip(1), base + 1);
        if !is_blank(ls[0]) {
            assert(parse_line(ls[0]) is Some);
        }
    }
}

/// Law: when every non-blank line after the marker is a well-formed
/// label/number line, parsing succeeds, the record is named by the file
/// stem, and its rows are exactly those lines' labels and values, in
/// file order.
pub proof fn lemma_parse_well_formed(name: Seq<char>, text: Seq<char>, marker: Seq<char>, mi: int)
    requires
        find_line(split_lines(text), marker) == Some(mi),
        forall|j: int|
            0 <= j < split_lines(text).skip(mi + 1).len() && !is_blank(
                #[trigger] split_lines(text).skip(mi + 1)[j],
            ) ==> parse_line(split_lines(text).skip(mi + 1)[j]) is Some,
    ensures
        parse_file(name, text, marker) == Ok::<DataView, ParseErrorView>(
            DataView {
                test_name: file_stem(name),
                row_data: rows_of_lines(split_lines(text).skip(mi + 1)),
            },
        ),
{
    lemma_parse_rows_all_ok(split_lines(text).skip(mi + 1), mi + 2);
}

/// Law: when no line after the marker is blank and all k of them are
/// well-formed, the record holds exactly k rows and row j reads line j.
pub proof fn lemma_parse_row_per_line(name: Seq<char>, text: Seq<char>, marker: Seq<char>, mi: int)
    requires
        find_line(split_lines(text), marker) == Some(mi),
        forall|j: int|
            0 <= j < split_lines(text).skip(mi + 1).len() ==> !is_blank(
                #[trigger] split_lines(text).skip(mi + 1)[j],
            ) && parse_line(split_lines(text).skip(mi + 1)[j]) is Some,
    ensures
        ({
            let tail = split_lines(text).skip(mi + 1);
            let r = parse_file(name, text, marker);
            &&& r is Ok
            &&& r->Ok_0.test_name == file_stem(name)
            &&& r->Ok_0.row_data.len() == tail.len()
            &&& forall|j: int| 0 <= j < tail.len() ==> Some(#[trigger] r->Ok_0.row_data[j])
                == parse_line(tail[j])
        }),
{
    let tail = split_lines(text).skip(mi + 1);
    lemma_parse_well_formed(name, text, marker, mi);
    lemma_rows_of_lines_dense(tail);
}

pub proof fn lemma_rows_of_lines_dense(ls: Seq<Seq<char>>)
    requires
        forall|j: int| 0 <= j < ls.len() ==> !is_blank(#[trigger] ls[j]) && parse_line(
            ls[j],
        ) is Some,
    ensures
        rows_of_lines(ls).len() == ls.len(),
        forall|j: int| 0 <= j < ls.len() ==> Some(#[trigger] rows_of_lines(ls)[j]) == parse_line(
            ls[j],
        ),
    decreases ls.len(),
{
    if ls.len() > 0 {
        assert forall|j: int| 0 <= j < ls.skip(1).len() implies !is_blank(
            #[trigger] ls.skip(1)[j],
        ) && parse_line(ls.skip(1)[j]) is Some by {
            assert(ls.skip(1)[j] == ls[j + 1]);
        }
        lemma_rows_of_lines_dense(ls.skip(1));
        assert forall|j: int| 0 <= j < ls.len() implies Some(#[trigger] rows_of_lines(ls)[j])
            == parse_line(ls[j]) by {
            if j > 0 {
                assert(rows_of_lines(ls)[j] == rows_of_lines(ls.skip(1))[j - 1]);
                assert(ls.skip(1)[j - 1] == ls[j]);
            }
        }
    }
}

/// Law: raw text without the marker line parses to `MarkerNotFound` and
/// yields no record.
pub proof fn lemma_parse_no_marker(name: Seq<char>, text: Seq<char>, marker: Seq<char>)
    requires
        find_line(split_lines(text), marker) is None,
    ensures
        parse_file(name, text, marker) == Err::<DataView, ParseErrorView>(
            ParseErrorView::MarkerNotFound,
        ),
{
}

pub proof fn lemma_parse_rows_first_bad(ls: Seq<Seq<char>>, base: int, i: int)
    requires
        0 <= i < ls.len(),
        forall|j: int| 0 <= j < i ==> is_blank(#[trigger] ls[j]) || parse_line(ls[j]) is Some,
        !is_blank(ls[i]),
        parse_line(ls[i]) is None,
    ensures
        parse_rows(ls, base) == Err::<Seq<RowView>, (int, Seq<char>)>((base + i, ls[i])),
    decreases ls.len(),
{
    if i == 0 {
    } else {
        assert(is_blank(ls[0]) || parse_line(ls[0]) is Some);
        assert forall|j: int| 0 <= j < i - 1 implies is_blank(#[trigger] ls.skip(1)[j])
            || parse_line(ls.skip(1)[j]) is Some by {
            assert(ls.skip(1)[j] == ls[j + 1]);
        }
        assert(ls.skip(1)[i - 1] == ls[i]);
        lemma_parse_rows_first_bad(ls.skip(1), base + 1, i - 1);
    }
}

/// Law: one malformed data line - the first one, every line before it
/// blank or well-formed - fails the whole file with that line's
/// one-based position and text, and no record is returned.
pub proof fn lemma_parse_malformed_line(
    name: Seq<char>,
    text: Seq<char>,
    marker: Seq<char>,
    mi: int,
    i: int,
)
    requires
        find_line(split_lines(text), marker) == Some(mi),
        ({
            let tail = split_lines(text).skip(mi + 1);
            &&& 0 <= i < tail.len()
            &&& forall|j: int| 0 <= j < i ==> is_blank(#[trigger] tail[j]) || parse_line(
                tail[j],
            ) is Some
            &&& !is_blank(tail[i])
            &&& parse_line(tail[i]) is None
        }),
    ensures
        parse_file(name, text, marker) == Err::<DataView, ParseErrorView>(
            ParseErrorView::MalformedRow {
                line: mi + 2 + i,
                content: split_lines(text).skip(mi + 1)[i],
            },
        ),
{
    lemma_parse_rows_first_bad(split_lines(text).skip(mi + 1), mi + 2, i);
}

/// Whether every character of the line is whitespace, as `is_blank`
/// describes.
pub fn is_blank_exec(line: &str) -> (r: bool)
    ensures
        r == is_blank(line@),
{
    let n = line.unicode_len();
    let mut i: usize = 0;
    while i < n
        invariant
            0 <= i <= n == line@.len(),
            forall|j: int| 0 <= j < i ==> is_space(#[trigger] line@[j]),
        decreases n - i,
    {
        if !is_space_exec(line.get_char(i)) {
            return false;
        }
        i += 1;
    }
    true
}

} // verus!
