use vstd::prelude::*;

use crate::chars::{is_digit, trim_sp, trim_str};
use crate::count::{DatasetCount, LayerCount, LayerCountV};
use crate::errors::{CountError, ErrorKind};
use crate::join::{CountDifferenceV, CountDifferenceVec};
use crate::numbers::{dec_int, dec_nat, dec_nat_val, parse_u64_str, spec_parse_u64};
use crate::numbers::{i128_to_string, u64_to_string};

verus! {

/// Split a character sequence at every line feed. There is always one
/// segment more than there are line feeds; a carriage return directly before
/// a line feed is dropped, as `str::lines` drops it.
pub open spec fn split_nl(s: Seq<char>) -> Seq<Seq<char>>
    decreases s.len(),
{
    if s.len() == 0 {
        seq![Seq::<char>::empty()]
    } else if s.last() == '\n' {
        let r = split_nl(s.drop_last());
        let lastseg = r.last();
        let stripped = if lastseg.len() > 0 && lastseg.last() == '\r' {
            lastseg.drop_last()
        } else {
            lastseg
        };
        r.update(r.len() - 1, stripped).push(Seq::<char>::empty())
    } else {
        let r = split_nl(s.drop_last());
        r.update(r.len() - 1, r.last().push(s.last()))
    }
}

pub proof fn split_nl_len(s: Seq<char>)
    ensures
        split_nl(s).len() >= 1,
    decreases s.len(),
{
    if s.len() > 0 {
        split_nl_len(s.drop_last());
    }
}

/// The lines of a text, as `str::lines` yields them: the segments between
/// line feeds, a trailing segment only when it is not empty.
pub open spec fn spec_lines(s: Seq<char>) -> Seq<Seq<char>> {
    let segs = split_nl(s);
    if segs.last().len() == 0 {
        segs.drop_last()
    } else {
        segs
    }
}

/// Cut a text into its lines.
pub fn lines_of(s: &str) -> (r: Vec<String>)
    ensures
        r@.map_values(|x: String| x@) == spec_lines(s@),
{
    let n = s.unicode_len();
    let mut lines: Vec<String> = Vec::new();
    let mut start: usize = 0;
    let mut i: usize = 0;
    proof {
        assert(s@.subrange(0, 0) =~= Seq::<char>::empty());
        assert(split_nl(s@.subrange(0, 0)) =~= seq![Seq::<char>::empty()]);
        assert(lines@.map_values(|x: String| x@) =~= Seq::<Seq<char>>::empty());
    }
    while i < n
        invariant
            start <= i <= n,
            n == s@.len(),
            split_nl(s@.subrange(0, i as int)) =~= lines@.map_values(|x: String| x@).push(
                s@.subrange(start as int, i as int),
            ),
        decreases n - i,
    {
        let ghost pre = s@.subrange(0, i as int);
        let ghost post = s@.subrange(0, i + 1);
        let ghost lsv = lines@.map_values(|x: String| x@);
        proof {
            split_nl_len(pre);
            assert(post.drop_last() =~= pre);
            assert(post.last() == s@[i as int]);
        }
        let c = s.get_char(i);
        if c == '\n' {
            let line: &str = if i > start && s.get_char(i - 1) == '\r' {
                s.substring_char(start, i - 1)
            } else {
                s.substring_char(start, i)
            };
            proof {
                let cur = s@.subrange(start as int, i as int);
                if i > start && s@[i - 1] == '\r' {
                    assert(cur.len() > 0 && cur.last() == '\r');
                    assert(cur.drop_last() =~= s@.subrange(start as int, i - 1));
                } else if cur.len() > 0 {
                    assert(cur.last() == s@[i - 1]);
                }
                assert(line@ == if cur.len() > 0 && cur.last() == '\r' {
                    cur.drop_last()
                } else {
                    cur
                });
            }
            lines.push(line.to_owned());
            proof {
                let cur = s@.subrange(start as int, i as int);
                let stripped = if cur.len() > 0 && cur.last() == '\r' {
                    cur.drop_last()
                } else {
                    cur
                };
                assert(lines@.map_values(|x: String| x@) =~= lsv.push(stripped));
                assert(lsv.push(cur).update(lsv.len() as int, stripped).push(
                    Seq::<char>::empty(),
                ) =~= lsv.push(stripped).push(Seq::<char>::empty()));
                assert(s@.subrange(i + 1, i + 1) =~= Seq::<char>::empty());
                assert(split_nl(post) =~~= lines@.map_values(|x: String| x@).push(
                    s@.subrange(i + 1, i + 1),
                ));
            }
            start = i + 1;
        } else {
            proof {
                let cur = s@.subrange(start as int, i as int);
                assert(lsv.push(cur).update(lsv.len() as int, cur.push(s@[i as int])) =~= lsv.push(
                    cur.push(s@[i as int]),
                ));
                assert(cur.push(s@[i as int]) =~= s@.subrange(start as int, i + 1));
            }
        }
        i = i + 1;
    }
    proof {
        assert(s@.subrange(0, n as int) =~= s@);
    }
    let tail = s.substring_char(start, n);
    if tail.unicode_len() > 0 {
        proof {
            split_nl_len(s@);
        }
        lines.push(tail.to_owned());
        proof {
            let lsv0 = split_nl(s@).drop_last();
            assert(lines@.map_values(|x: String| x@) =~= lsv0.push(
                s@.subrange(start as int, n as int),
            ));
            assert(lines@.map_values(|x: String| x@) =~= split_nl(s@));
            assert(spec_lines(s@) == split_nl(s@));
        }
    } else {
        proof {
            assert(split_nl(s@).last() =~= Seq::<char>::empty());
            assert(spec_lines(s@) == split_nl(s@).drop_last());
            assert(lines@.map_values(|x: String| x@) =~= split_nl(s@).drop_last());
        }
    }
    lines
}

/// Index of the first comma, or the length when there is none.
pub open spec fn first_comma(line: Seq<char>) -> int
    decreases line.len(),
{
    if line.len() == 0 {
        0
    } else if line[0] == ',' {
        0
    } else {
        1 + first_comma(line.drop_first())
    }
}

pub proof fn first_comma_at(line: Seq<char>, k: int)
    requires
        0 <= k < line.len(),
        line[k] == ',',
        forall|j: int| 0 <= j < k ==> line[j] != ',',
    ensures
        first_comma(line) == k,
    decreases k,
{
    if k > 0 {
        let rest = line.drop_first();
        assert(forall|j: int| 0 <= j < k - 1 ==> #[trigger] rest[j] == line[j + 1]);
        assert(rest[k - 1] == line[k]);
        first_comma_at(rest, k - 1);
    }
}

pub proof fn first_comma_none(line: Seq<char>)
    requires
        forall|j: int| 0 <= j < line.len() ==> line[j] != ',',
    ensures
        first_comma(line) == line.len(),
    decreases line.len(),
{
    if line.len() > 0 {
        let rest = line.drop_first();
        assert(forall|j: int| 0 <= j < rest.len() ==> #[trigger] rest[j] == line[j + 1]);
        first_comma_none(rest);
    }
}

/// What parsing one data row yields: a record, or the way the row is bad.
pub ghost enum RowParse {
    Parsed(LayerCountV),
    NoComma,
    BadCount,
}

/// Parse one `layer,count` row: split at the first comma, read the count as
/// a decimal `u64`. With `trim`, blanks around either field are ignored.
pub open spec fn spec_row(line: Seq<char>, trim: bool) -> RowParse {
    let k = first_comma(line);
    if k == line.len() {
        RowParse::NoComma
    } else {
        let name0 = line.subrange(0, k);
        let cnt0 = line.subrange(k + 1, line.len() as int);
        let name = if trim {
            trim_sp(name0)
        } else {
            name0
        };
        let cnt = if trim {
            trim_sp(cnt0)
        } else {
            cnt0
        };
        match spec_parse_u64(cnt) {
            Some(c) => RowParse::Parsed(LayerCountV { layer: name, count: c }),
            None => RowParse::BadCount,
        }
    }
}

/// How one row failed to parse.
pub enum RowError {
    NoComma,
    BadCount,
}

/// The result of the executable row parser agrees with `spec_row`.
pub open spec fn row_matches(r: Result<LayerCount, RowError>, line: Seq<char>, trim: bool) -> bool {
    match r {
        Ok(lc) => spec_row(line, trim) == RowParse::Parsed(lc@),
        Err(RowError::NoComma) => spec_row(line, trim) is NoComma,
        Err(RowError::BadCount) => spec_row(line, trim) is BadCount,
    }
}

fn parse_row(line: &str, trim: bool) -> (r: Result<LayerCount, RowError>)
    ensures
        row_matches(r, line@, trim),
{
    let n = line.unicode_len();
    let mut k: usize = 0;
    while k < n && line.get_char(k) != ','
        invariant
            k <= n,
            n == line@.len(),
            forall|j: int| 0 <= j < k ==> line@[j] != ',',
        decreases n - k,
    {
        k = k + 1;
    }
    if k == n {
        proof {
            first_comma_none(line@);
        }
        return Err(RowError::NoComma);
    }
    proof {
        first_comma_at(line@, k as int);
    }
    let name_part = line.substring_char(0, k);
    let cnt_part = line.substring_char(k + 1, n);
    let name_s: &str = if trim {
        trim_str(name_part)
    } else {
        name_part
    };
    let cnt_s: &str = if trim {
        trim_str(cnt_part)
    } else {
        cnt_part
    };
    match parse_u64_str(cnt_s) {
        Some(c) => Ok(LayerCount { layer: name_s.to_owned(), count: c }),
        None => Err(RowError::BadCount),
    }
}

impl LayerCount {
    /// Parse one `layer,count` line, blanks around the fields ignored. The
    /// parse succeeds exactly when the line splits at a comma and its count
    /// field is a decimal `u64`; the record then carries both fields.
    pub fn from_line(s: &str) -> (r: Result<LayerCount, String>)
        ensures
            match r {
                Ok(lc) => spec_row(s@, true) == RowParse::Parsed(lc@),
                Err(_) => spec_row(s@, true) is NoComma || spec_row(s@, true) is BadCount,
            },
    {
        match parse_row(s, true) {
            Ok(lc) => Ok(lc),
            Err(RowError::NoComma) => Err(
                String::from_str("error while parsing ").concat(s),
            ),
            Err(RowError::BadCount) => Err(String::from_str("error around here")),
        }
    }
}

/// What parsing a whole document yields: the records of every data row, or
/// the first failure. Parsing is all or nothing.
pub ghost enum DocParse {
    Parsed(Seq<LayerCountV>),
    NoHeader,
    NoComma,
    BadCount,
}

/// Parse data rows in order; the first bad row decides the failure.
pub open spec fn spec_rows(ls: Seq<Seq<char>>, trim: bool) -> DocParse
    decreases ls.len(),
{
    if ls.len() == 0 {
        DocParse::Parsed(Seq::<LayerCountV>::empty())
    } else {
        match spec_row(ls[0], trim) {
            RowParse::NoComma => DocParse::NoComma,
            RowParse::BadCount => DocParse::BadCount,
            RowParse::Parsed(v) => match spec_rows(ls.drop_first(), trim) {
                DocParse::Parsed(rest) => DocParse::Parsed(seq![v] + rest),
                DocParse::NoHeader => DocParse::NoHeader,
                DocParse::NoComma => DocParse::NoComma,
                DocParse::BadCount => DocParse::BadCount,
            },
        }
    }
}

/// Parse a whole document: a header line must be present and is not read;
/// every following line is a data row.
pub open spec fn spec_parse_doc(s: Seq<char>, trim: bool) -> DocParse {
    let ls = spec_lines(s);
    if ls.len() == 0 {
        DocParse::NoHeader
    } else {
        spec_rows(ls.drop_first(), trim)
    }
}

proof fn spec_rows_prefix(ls: Seq<Seq<char>>, trim: bool, i: int, acc: Seq<LayerCountV>)
    requires
        0 <= i <= ls.len(),
        forall|j: int| 0 <= j < i ==> spec_row(#[trigger] ls[j], trim) is Parsed,
        acc == Seq::new(i as nat, |j: int| spec_row(ls[j], trim)->Parsed_0),
    ensures
        spec_rows(ls, trim) == match spec_rows(ls.skip(i), trim) {
            DocParse::Parsed(rest) => DocParse::Parsed(acc + rest),
            DocParse::NoHeader => DocParse::NoHeader,
            DocParse::NoComma => DocParse::NoComma,
            DocParse::BadCount => DocParse::BadCount,
        },
    decreases i,
{
    if i == 0 {
        assert(ls.skip(0) =~= ls);
        match spec_rows(ls, trim) {
            DocParse::Parsed(rest) => {
                assert(acc + rest =~= rest);
            },
            _ => {},
        }
    } else {
        let rest_ls = ls.drop_first();
        assert(forall|j: int| 0 <= j < rest_ls.len() ==> #[trigger] rest_ls[j] == ls[j + 1]);
        let acc1 = Seq::new((i - 1) as nat, |j: int| spec_row(rest_ls[j], trim)->Parsed_0);
        spec_rows_prefix(rest_ls, trim, i - 1, acc1);
        assert(rest_ls.skip(i - 1) =~= ls.skip(i));
        let v0 = spec_row(ls[0], trim)->Parsed_0;
        assert(acc =~= seq![v0] + acc1);
        match spec_rows(ls.skip(i), trim) {
            DocParse::Parsed(rest) => {
                assert(seq![v0] + (acc1 + rest) =~= acc + rest);
            },
            _ => {},
        }
    }
}

impl DatasetCount {
    /// Parse a count document. The parse succeeds exactly when the text has
    /// at least one line and every line after the first is a well-formed
    /// `layer,count` row; the records then come in row order. A missing
    /// header or a row without a comma is a CSV failure; a bad count field
    /// is an integer-parse failure.
    pub fn parse_doc(s: &str, trim: bool) -> (r: Result<DatasetCount, CountError>)
        ensures
            match r {
                Ok(dc) => spec_parse_doc(s@, trim) == DocParse::Parsed(dc@),
                Err(e) => match spec_parse_doc(s@, trim) {
                    DocParse::Parsed(_) => false,
                    DocParse::NoHeader => e.kind is Csv,
                    DocParse::NoComma => e.kind is Csv,
                    DocParse::BadCount => e.kind is ParseInt,
                },
            },
    {
        let lines = lines_of(s);
        let ghost lsv = lines@.map_values(|x: String| x@);
        if lines.len() == 0 {
            return Err(
                CountError { kind: ErrorKind::Csv(String::from_str("missing header row")) },
            );
        }
        let ghost rows_ls = lsv.drop_first();
        proof {
            assert(forall|j: int| 0 <= j < rows_ls.len() ==> #[trigger] rows_ls[j] == lsv[j + 1]);
        }
        let mut out: Vec<LayerCount> = Vec::new();
        let mut i: usize = 1;
        while i < lines.len()
            invariant
                1 <= i <= lines@.len(),
                lsv == lines@.map_values(|x: String| x@),
                lsv == spec_lines(s@),
                rows_ls == lsv.drop_first(),
                forall|j: int| 0 <= j < rows_ls.len() ==> #[trigger] rows_ls[j] == lsv[j + 1],
                forall|j: int| 0 <= j < i - 1 ==> spec_row(#[trigger] rows_ls[j], trim) is Parsed,
                out@.map_values(|lc: LayerCount| lc@) =~= Seq::new(
                    (i - 1) as nat,
                    |j: int| spec_row(rows_ls[j], trim)->Parsed_0,
                ),
            decreases lines@.len() - i,
        {
            let ghost acc = out@.map_values(|lc: LayerCount| lc@);
            match parse_row(lines[i].as_str(), trim) {
                Ok(lc) => {
                    out.push(lc);
                    proof {
                        assert(out@.map_values(|lc2: LayerCount| lc2@) =~= acc.push(lc@));
                    }
                },
                Err(RowError::NoComma) => {
                    proof {
                        spec_rows_prefix(rows_ls, trim, i - 1, acc);
                        assert(rows_ls.skip(i - 1)[0] == rows_ls[i - 1]);
                        assert(spec_rows(rows_ls.skip(i - 1), trim) is NoComma);
                    }
                    return Err(
                        CountError {
                            kind: ErrorKind::Csv(
                                String::from_str("error while parsing ").concat(
                                    lines[i].as_str(),
                                ),
                            ),
                        },
                    );
                },
                Err(RowError::BadCount) => {
                    proof {
                        spec_rows_prefix(rows_ls, trim, i - 1, acc);
                        assert(rows_ls.skip(i - 1)[0] == rows_ls[i - 1]);
                        assert(spec_rows(rows_ls.skip(i - 1), trim) is BadCount);
                    }
                    return Err(
                        CountError {
                            kind: ErrorKind::ParseInt(
                                String::from_str("invalid count in ").concat(lines[i].as_str()),
                            ),
                        },
                    );
                },
            }
            i = i + 1;
        }
        proof {
            spec_rows_prefix(rows_ls, trim, rows_ls.len() as int, out@.map_values(|lc: LayerCount| lc@));
            assert(rows_ls.skip(rows_ls.len() as int) =~= Seq::<Seq<char>>::empty());
            let acc = out@.map_values(|lc: LayerCount| lc@);
            assert(acc + Seq::<LayerCountV>::empty() =~= acc);
        }
        Ok(DatasetCount(out))
    }

    /// Parse a count document without trimming, as the raw CSV reader does.
    pub fn from_csv(s: &str) -> (r: Result<DatasetCount, CountError>)
        ensures
            match r {
                Ok(dc) => spec_parse_doc(s@, false) == DocParse::Parsed(dc@),
                Err(e) => match spec_parse_doc(s@, false) {
                    DocParse::Parsed(_) => false,
                    DocParse::NoHeader => e.kind is Csv,
                    DocParse::NoComma => e.kind is Csv,
                    DocParse::BadCount => e.kind is ParseInt,
                },
            },
    {
        DatasetCount::parse_doc(s, false)
    }
}

/// The header row of a count document, line feed included.
pub open spec fn count_header() -> Seq<char> {
    seq!['l', 'a', 'y', 'e', 'r', ',', 'c', 'o', 'u', 'n', 't', '\n']
}

/// One serialized count record, without its line feed.
pub open spec fn layer_line(v: LayerCountV) -> Seq<char> {
    v.layer + seq![','] + dec_nat(v.count as nat)
}

/// The serialized data rows, each ended by a line feed.
pub open spec fn csv_body(rows: Seq<LayerCountV>) -> Seq<char>
    decreases rows.len(),
{
    if rows.len() == 0 {
        Seq::<char>::empty()
    } else {
        csv_body(rows.drop_last()) + layer_line(rows.last()) + seq!['\n']
    }
}

/// A whole serialized count document.
pub open spec fn csv_doc(rows: Seq<LayerCountV>) -> Seq<char> {
    count_header() + csv_body(rows)
}

impl DatasetCount {
    /// Serialize: the header row, then one `layer,count` row per record, in
    /// the collection's existing order.
    pub fn to_csv(&self) -> (r: String)
        ensures
            r@ == csv_doc(self@),
    {
        let mut out = String::from_str("layer,count\n");
        proof {
            reveal_strlit("layer,count\n");
            assert(out@ =~= count_header());
            assert(self@.subrange(0, 0) =~= Seq::<LayerCountV>::empty());
            assert(out@ =~= count_header() + csv_body(self@.subrange(0, 0)));
        }
        let n = self.0.len();
        let mut i: usize = 0;
        while i < n
            invariant
                i <= n,
                n == self.0@.len(),
                self@.len() == n,
                out@ == count_header() + csv_body(self@.subrange(0, i as int)),
            decreases n - i,
        {
            let lc = &self.0[i];
            out.append(lc.layer.as_str());
            out.append(",");
            let cs = u64_to_string(lc.count);
            out.append(cs.as_str());
            out.append("\n");
            proof {
                reveal_strlit(",");
                reveal_strlit("\n");
                assert(","@ =~= seq![',']);
                assert("\n"@ =~= seq!['\n']);
                let pre = self@.subrange(0, i as int);
                let post = self@.subrange(0, i + 1);
                assert(post =~= pre.push(self@[i as int]));
                assert(post.drop_last() =~= pre);
                assert(post.last() == self@[i as int]);
                assert(self@[i as int] == self.0@[i as int]@);
                assert(out@ =~= count_header() + csv_body(post));
            }
            i = i + 1;
        }
        proof {
            assert(self@.subrange(0, n as int) =~= self@);
        }
        out
    }
}

/// The header row of a comparison document, line feed included.
pub open spec fn diff_header() -> Seq<char> {
    seq![
        'l', 'a', 'y', 'e', 'r', ',', 'l', 'e', 'f', 't', '_', 'c', 'o', 'u', 'n', 't', ',', 'r',
        'i', 'g', 'h', 't', '_', 'c', 'o', 'u', 'n', 't', ',', 'd', 'i', 'f', 'f', 'e', 'r', 'e',
        'n', 'c', 'e', '\n',
    ]
}

/// An optional count serializes to its decimal notation, an absent one to an
/// empty field.
pub open spec fn opt_u64_text(o: Option<u64>) -> Seq<char> {
    match o {
        Some(v) => dec_nat(v as nat),
        None => Seq::<char>::empty(),
    }
}

pub open spec fn opt_i128_text(o: Option<i128>) -> Seq<char> {
    match o {
        Some(v) => dec_int(v as int),
        None => Seq::<char>::empty(),
    }
}

/// One serialized comparison row, without its line feed.
pub open spec fn diff_line(v: CountDifferenceV) -> Seq<char> {
    v.layer + seq![','] + opt_u64_text(v.left_count) + seq![','] + opt_u64_text(v.right_count)
        + seq![','] + opt_i128_text(v.difference)
}

pub open spec fn diff_body(rows: Seq<CountDifferenceV>) -> Seq<char>
    decreases rows.len(),
{
    if rows.len() == 0 {
        Seq::<char>::empty()
    } else {
        diff_body(rows.drop_last()) + diff_line(rows.last()) + seq!['\n']
    }
}

/// A whole serialized comparison document.
pub open spec fn diff_doc(rows: Seq<CountDifferenceV>) -> Seq<char> {
    diff_header() + diff_body(rows)
}

fn append_opt_u64(out: &mut String, o: &Option<u64>)
    ensures
        final(out)@ == old(out)@ + opt_u64_text(*o),
{
    match o {
        Some(v) => {
            let s = u64_to_string(*v);
            out.append(s.as_str());
        },
        None => {
            proof {
                assert(old(out)@ + opt_u64_text(*o) =~= old(out)@);
            }
        },
    }
}

fn append_opt_i128(out: &mut String, o: &Option<i128>)
    ensures
        final(out)@ == old(out)@ + opt_i128_text(*o),
{
    match o {
        Some(v) => {
            let s = i128_to_string(*v);
            out.append(s.as_str());
        },
        None => {
            proof {
                assert(old(out)@ + opt_i128_text(*o) =~= old(out)@);
            }
        },
    }
}

impl CountDifferenceVec {
    /// Serialize: the header row, then one row per comparison entry, absent
    /// optionals as empty fields, in the list's existing order.
    #[verifier::rlimit(50)]
    pub fn to_csv(&self) -> (r: String)
        ensures
            r@ == diff_doc(self@),
    {
        let mut out = String::from_str("layer,left_count,right_count,difference\n");
        proof {
            reveal_strlit("layer,left_count,right_count,difference\n");
            assert(out@ =~= diff_header());
            assert(self@.subrange(0, 0) =~= Seq::<CountDifferenceV>::empty());
            assert(out@ =~= diff_header() + diff_body(self@.subrange(0, 0)));
        }
        let n = self.0.len();
        let mut i: usize = 0;
        while i < n
            invariant
                i <= n,
                n == self.0@.len(),
                self@.len() == n,
                out@ == diff_header() + diff_body(self@.subrange(0, i as int)),
            decreases n - i,
        {
            let d = &self.0[i];
            out.append(d.layer.as_str());
            out.append(",");
            append_opt_u64(&mut out, &d.left_count);
            out.append(",");
            append_opt_u64(&mut out, &d.right_count);
            out.append(",");
            append_opt_i128(&mut out, &d.difference);
            out.append("\n");
            proof {
                reveal_strlit(",");
                reveal_strlit("\n");
                assert(","@ =~= seq![',']);
                assert("\n"@ =~= seq!['\n']);
                let pre = self@.subrange(0, i as int);
                let post = self@.subrange(0, i + 1);
                assert(post =~= pre.push(self@[i as int]));
                assert(post.drop_last() =~= pre);
                assert(post.last() == self@[i as int]);
                assert(self@[i as int] == self.0@[i as int]@);
                assert(out@ =~= diff_header() + diff_body(post));
            }
            i = i + 1;
        }
        proof {
            assert(self@.subrange(0, n as int) =~= self@);
        }
        out
    }
}

/// A layer name the codec can round-trip: no comma, no line feed, no
/// carriage return.
pub open spec fn csv_safe_name(name: Seq<char>) -> bool {
    forall|i: int|
        0 <= i < name.len() ==> #[trigger] name[i] != ',' && name[i] != '\n' && name[i] != '\r'
}

proof fn layer_line_chars(v: LayerCountV)
    requires
        csv_safe_name(v.layer),
    ensures
        layer_line(v).len() > 0,
        forall|i: int| 0 <= i < layer_line(v).len() ==> #[trigger] layer_line(v)[i] != '\n',
        layer_line(v).last() != '\r',
{
    dec_nat_val(v.count as nat);
    let line = layer_line(v);
    let a = v.layer.len() as int;
    let d = dec_nat(v.count as nat);
    assert forall|i: int| 0 <= i < line.len() implies #[trigger] line[i] != '\n' by {
        if i < a {
            assert(line[i] == v.layer[i]);
        } else if i == a {
            assert(line[i] == ',');
        } else {
            assert(line[i] == d[i - a - 1]);
            assert(is_digit(d[i - a - 1]));
        }
    }
    assert(line.last() == d[d.len() - 1]);
    assert(is_digit(d[d.len() - 1]));
}

/// Parsing one serialized record gives the record back: the record half of
/// the round-trip law. When the parse trims, the name must carry no leading
/// or trailing blanks.
pub proof fn lemma_row_round_trip(v: LayerCountV, trim: bool)
    requires
        csv_safe_name(v.layer),
        trim ==> trim_sp(v.layer) == v.layer,
    ensures
        spec_row(layer_line(v), trim) == RowParse::Parsed(v),
{
    dec_nat_val(v.count as nat);
    let line = layer_line(v);
    let a = v.layer.len() as int;
    let d = dec_nat(v.count as nat);
    assert(line[a] == ',');
    assert(forall|j: int| 0 <= j < a ==> #[trigger] line[j] == v.layer[j]);
    first_comma_at(line, a);
    assert(line.subrange(0, a) =~= v.layer);
    assert(line.subrange(a + 1, line.len() as int) =~= d) by {
        assert(forall|j: int|
            0 <= j < d.len() ==> #[trigger] line.subrange(a + 1, line.len() as int)[j] == d[j]);
    }
    if trim {
        crate::chars::trim_sp_digits(d);
    }
    assert(spec_parse_u64(d) == Some(v.count));
}

/// Appending a segment without line feeds extends the last line.
proof fn split_nl_append_seg(x: Seq<char>, seg: Seq<char>)
    requires
        forall|i: int| 0 <= i < seg.len() ==> #[trigger] seg[i] != '\n',
    ensures
        split_nl(x + seg) == split_nl(x).update(
            split_nl(x).len() - 1,
            split_nl(x).last() + seg,
        ),
    decreases seg.len(),
{
    split_nl_len(x);
    let s = split_nl(x);
    let ll = s.len() - 1;
    if seg.len() == 0 {
        assert(x + seg =~= x);
        assert(s.last() + seg =~= s.last());
        assert(s.update(ll, s.last()) =~= s);
    } else {
        let seg0 = seg.drop_last();
        let c = seg.last();
        assert(forall|i: int| 0 <= i < seg0.len() ==> #[trigger] seg0[i] == seg[i]);
        split_nl_append_seg(x, seg0);
        assert(x + seg =~= (x + seg0).push(c));
        assert((x + seg0).push(c).drop_last() =~= x + seg0);
        assert((x + seg0).push(c).last() == c);
        let r0 = split_nl(x + seg0);
        assert(r0 == s.update(ll, s.last() + seg0));
        assert(split_nl((x + seg0).push(c)) == r0.update(r0.len() - 1, r0.last().push(c)));
        assert((s.last() + seg0).push(c) =~= s.last() + seg);
        assert(r0.update(r0.len() - 1, r0.last().push(c)) =~= s.update(ll, s.last() + seg));
    }
}

/// Appending a line and its line feed to a text whose last segment is open
/// and empty appends exactly that line and opens a new empty segment.
proof fn split_nl_append_line(x: Seq<char>, seg: Seq<char>)
    requires
        forall|i: int| 0 <= i < seg.len() ==> #[trigger] seg[i] != '\n',
        seg.len() > 0 ==> seg.last() != '\r',
        split_nl(x).last() == Seq::<char>::empty(),
    ensures
        split_nl(x + seg + seq!['\n']) == split_nl(x).update(
            split_nl(x).len() - 1,
            seg,
        ).push(Seq::<char>::empty()),
{
    split_nl_len(x);
    let s = split_nl(x);
    let ll = s.len() - 1;
    split_nl_append_seg(x, seg);
    let r0 = split_nl(x + seg);
    assert(Seq::<char>::empty() + seg =~= seg);
    assert(r0 == s.update(ll, seg));
    assert(x + seg + seq!['\n'] =~= (x + seg).push('\n'));
    assert((x + seg).push('\n').drop_last() =~= x + seg);
    assert((x + seg).push('\n').last() == '\n');
    assert(r0.last() == seg);
    assert(split_nl((x + seg).push('\n')) == r0.update(r0.len() - 1, seg).push(
        Seq::<char>::empty(),
    ));
    assert(r0.update(r0.len() - 1, seg) =~= r0);
}

/// The serialized document cuts back into the header line and one line per
/// record.
proof fn lemma_doc_lines(rows: Seq<LayerCountV>)
    requires
        forall|k: int| 0 <= k < rows.len() ==> csv_safe_name((#[trigger] rows[k]).layer),
    ensures
        split_nl(csv_doc(rows)) == seq![count_header().drop_last()] + rows.map_values(
            |v: LayerCountV| layer_line(v),
        ) + seq![Seq::<char>::empty()],
    decreases rows.len(),
{
    let core = count_header().drop_last();
    if rows.len() == 0 {
        assert(csv_doc(rows) =~= Seq::<char>::empty() + core + seq!['\n']);
        assert(split_nl(Seq::<char>::empty()) == seq![Seq::<char>::empty()]);
        assert(forall|i: int| 0 <= i < core.len() ==> #[trigger] core[i] != '\n');
        assert(core.last() == 't');
        split_nl_append_line(Seq::<char>::empty(), core);
        assert(seq![Seq::<char>::empty()].update(0, core).push(Seq::<char>::empty()) =~= seq![
            core,
            Seq::<char>::empty(),
        ]);
        assert(split_nl(csv_doc(rows)) =~= seq![core] + rows.map_values(
            |v: LayerCountV| layer_line(v),
        ) + seq![Seq::<char>::empty()]);
    } else {
        let rows0 = rows.drop_last();
        let v = rows.last();
        assert(forall|k: int|
            0 <= k < rows0.len() ==> (#[trigger] rows0[k]).layer == rows[k].layer);
        lemma_doc_lines(rows0);
        layer_line_chars(v);
        assert(csv_body(rows) == csv_body(rows0) + layer_line(v) + seq!['\n']);
        assert(csv_doc(rows) =~= csv_doc(rows0) + layer_line(v) + seq!['\n']);
        let s0 = split_nl(csv_doc(rows0));
        let m0 = rows0.map_values(|v2: LayerCountV| layer_line(v2));
        assert(s0.last() == Seq::<char>::empty()) by {
            assert(s0 == seq![core] + m0 + seq![Seq::<char>::empty()]);
            assert(s0[s0.len() - 1] == Seq::<char>::empty());
        }
        split_nl_append_line(csv_doc(rows0), layer_line(v));
        assert(split_nl(csv_doc(rows)) == s0.update(s0.len() - 1, layer_line(v)).push(
            Seq::<char>::empty(),
        ));
        assert(rows.map_values(|v2: LayerCountV| layer_line(v2)) =~= m0.push(layer_line(v)));
        assert(s0.update(s0.len() - 1, layer_line(v)).push(Seq::<char>::empty()) =~= seq![core]
            + rows.map_values(|v2: LayerCountV| layer_line(v2)) + seq![Seq::<char>::empty()]);
    }
}

proof fn lemma_rows_round_trip(rows: Seq<LayerCountV>, trim: bool)
    requires
        forall|k: int| 0 <= k < rows.len() ==> csv_safe_name((#[trigger] rows[k]).layer),
        trim ==> forall|k: int|
            0 <= k < rows.len() ==> trim_sp((#[trigger] rows[k]).layer) == rows[k].layer,
    ensures
        spec_rows(rows.map_values(|v: LayerCountV| layer_line(v)), trim) == DocParse::Parsed(rows),
    decreases rows.len(),
{
    let ls = rows.map_values(|v: LayerCountV| layer_line(v));
    if rows.len() == 0 {
        assert(ls.len() == 0);
        assert(spec_rows(ls, trim) == DocParse::Parsed(Seq::<LayerCountV>::empty()));
        assert(rows =~= Seq::<LayerCountV>::empty());
    } else {
        lemma_row_round_trip(rows[0], trim);
        assert(ls[0] == layer_line(rows[0]));
        let rest = rows.drop_first();
        assert(forall|k: int| 0 <= k < rest.len() ==> #[trigger] rest[k] == rows[k + 1]);
        lemma_rows_round_trip(rest, trim);
        assert(ls.drop_first() =~= rest.map_values(|v: LayerCountV| layer_line(v)));
        assert(seq![rows[0]] + rest =~= rows);
    }
}

/// The round-trip law for a whole table: serializing a count table and
/// parsing the text back yields the table unchanged, row for row and in
/// order, provided no layer name contains a comma, a line feed or a
/// carriage return — and, when the parse trims, no name carries leading or
/// trailing blanks.
pub proof fn lemma_csv_round_trip(rows: Seq<LayerCountV>, trim: bool)
    requires
        forall|k: int| 0 <= k < rows.len() ==> csv_safe_name((#[trigger] rows[k]).layer),
        trim ==> forall|k: int|
            0 <= k < rows.len() ==> trim_sp((#[trigger] rows[k]).layer) == rows[k].layer,
    ensures
        spec_parse_doc(csv_doc(rows), trim) == DocParse::Parsed(rows),
{
    lemma_doc_lines(rows);
    let segs = split_nl(csv_doc(rows));
    let core = count_header().drop_last();
    let m = rows.map_values(|v: LayerCountV| layer_line(v));
    assert(segs.last() == Seq::<char>::empty()) by {
        assert(segs[segs.len() - 1] == Seq::<char>::empty());
    }
    assert(spec_lines(csv_doc(rows)) == segs.drop_last());
    assert(segs.drop_last() =~= seq![core] + m);
    let ls = spec_lines(csv_doc(rows));
    assert(ls.len() == 1 + rows.len());
    assert(ls.drop_first() =~= m);
    lemma_rows_round_trip(rows, trim);
}

impl core::str::FromStr for LayerCount {
    type Err = String;

    fn from_str(s: &str) -> Result<LayerCount, String> {
        LayerCount::from_line(s)
    }
}

impl core::str::FromStr for DatasetCount {
    type Err = CountError;

    fn from_str(s: &str) -> Result<DatasetCount, CountError> {
        DatasetCount::parse_doc(s, true)
    }
}

} // verus!
