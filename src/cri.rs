use vstd::prelude::*;

use crate::text::chars_of;
use crate::timestamp::{
    is_digit, is_plain_rfc3339, parse_timestamp, rfc3339_nanos, rfc3339_offset, timestamp_of,
    Timestamp,
};

verus! {

/// The stream a container wrote a line to.
#[derive(Debug, Clone, Copy, PartialEq, Eq, Structural)]
pub enum OutputStream {
    StdOut,
    StdErr,
}

/// One parsed CRI log line.
#[derive(Debug)]
pub struct LogLine {
    pub datetime: Timestamp,
    pub stream: OutputStream,
    pub tags: Vec<String>,
    pub line: String,
}

/// The mathematical content of a `LogLine`.
pub struct LogRecord {
    pub datetime: Timestamp,
    pub stream: OutputStream,
    pub tags: Seq<Seq<char>>,
    pub body: Seq<char>,
}

impl View for LogLine {
    type V = LogRecord;

    open spec fn view(&self) -> LogRecord {
        LogRecord {
            datetime: self.datetime,
            stream: self.stream,
            tags: self.tags@.map_values(|t: String| t@),
            body: self.line@,
        }
    }
}

/// A character that may appear in the timestamp field.
pub open spec fn is_ts_char(c: char) -> bool {
    is_digit(c) || c == '-' || c == '+' || c == 'T' || c == ':' || c == 'Z' || c == '.'
}

/// Unicode `White_Space`.
pub open spec fn is_white_space(c: char) -> bool {
    let u = c as u32;
    (0x9 <= u <= 0xd) || u == 0x20 || u == 0x85 || u == 0xa0 || u == 0x1680 || (0x2000 <= u
        <= 0x200a) || u == 0x2028 || u == 0x2029 || u == 0x202f || u == 0x205f || u == 0x3000
}

pub open spec fn stdout_token() -> Seq<char> {
    seq!['s', 't', 'd', 'o', 'u', 't']
}

pub open spec fn stderr_token() -> Seq<char> {
    seq!['s', 't', 'd', 'e', 'r', 'r']
}

/// `line` reads `<timestamp> <stream> <tags> <body>`, where the timestamp
/// field ends at `i` and the tag field at `j`.
pub open spec fn grammar_split(line: Seq<char>, i: int, j: int) -> bool {
    &&& 0 <= i && i + 8 < j && j < line.len()
    &&& forall|k: int| 0 <= k < i ==> is_ts_char(#[trigger] line[k])
    &&& line[i] == ' ' && line[i + 7] == ' ' && line[j] == ' '
    &&& (line.subrange(i + 1, i + 7) == stdout_token() || line.subrange(i + 1, i + 7)
        == stderr_token())
    &&& forall|k: int| i + 8 <= k < j ==> !is_white_space(#[trigger] line[k])
    &&& forall|k: int| j < k < line.len() ==> #[trigger] line[k] != '\n'
}

pub open spec fn is_cri_line(line: Seq<char>) -> bool {
    exists|i: int, j: int| grammar_split(line, i, j)
}

/// The pieces of `s` between occurrences of `sep` (always at least one).
pub open spec fn split_on(s: Seq<char>, sep: char) -> Seq<Seq<char>>
    decreases s.len(),
{
    if s.len() == 0 {
        seq![Seq::empty()]
    } else {
        let prev = split_on(s.drop_last(), sep);
        if s.last() == sep {
            prev.push(Seq::empty())
        } else {
            prev.update(prev.len() - 1, prev.last().push(s.last()))
        }
    }
}

pub open spec fn stream_of(token: Seq<char>) -> OutputStream {
    if token == stdout_token() {
        OutputStream::StdOut
    } else {
        OutputStream::StdErr
    }
}

/// The record of a line split at `i` and `j`, if its timestamp parses.
pub open spec fn record_at(line: Seq<char>, i: int, j: int) -> Option<LogRecord> {
    match timestamp_of(line.subrange(0, i)) {
        Some(t) => Some(
            LogRecord {
                datetime: t,
                stream: stream_of(line.subrange(i + 1, i + 7)),
                tags: split_on(line.subrange(i + 8, j), ':'),
                body: line.subrange(j + 1, line.len() as int),
            },
        ),
        None => None,
    }
}

/// The record a line denotes, or none when it does not follow the grammar
/// or its timestamp does not parse.
pub open spec fn cri_record(line: Seq<char>) -> Option<LogRecord> {
    if is_cri_line(line) {
        let (i, j) = choose|i: int, j: int| grammar_split(line, i, j);
        record_at(line, i, j)
    } else {
        None
    }
}

/// A line can be split in at most one way.
pub proof fn lemma_split_unique(line: Seq<char>, i: int, j: int, i2: int, j2: int)
    requires
        grammar_split(line, i, j),
        grammar_split(line, i2, j2),
    ensures
        i == i2 && j == j2,
{
    if i < i2 {
        assert(is_ts_char(line[i]));
    }
    if i2 < i {
        assert(is_ts_char(line[i2]));
    }
    if j < j2 {
        assert(!is_white_space(line[j]));
    }
    if j2 < j {
        assert(!is_white_space(line[j2]));
    }
}

proof fn lemma_split_on_step(s: Seq<char>, a: int, k: int, sep: char)
    requires
        0 <= a <= k < s.len(),
    ensures
        split_on(s.subrange(a, k + 1), sep) == (if s[k] == sep {
            split_on(s.subrange(a, k), sep).push(Seq::empty())
        } else {
            split_on(s.subrange(a, k), sep).update(
                split_on(s.subrange(a, k), sep).len() - 1,
                split_on(s.subrange(a, k), sep).last().push(s[k]),
            )
        }),
{
    assert(s.subrange(a, k + 1).drop_last() =~= s.subrange(a, k));
}

fn is_ts_char_exec(c: char) -> (b: bool)
    ensures
        b == is_ts_char(c),
{
    ('0' <= c && c <= '9') || c == '-' || c == '+' || c == 'T' || c == ':' || c == 'Z' || c == '.'
}

fn is_white_space_exec(c: char) -> (b: bool)
    ensures
        b == is_white_space(c),
{
    let u = c as u32;
    (0x9 <= u && u <= 0xd) || u == 0x20 || u == 0x85 || u == 0xa0 || u == 0x1680 || (0x2000 <= u
        && u <= 0x200a) || u == 0x2028 || u == 0x2029 || u == 0x202f || u == 0x205f || u == 0x3000
}


/// Which of the two stream words stands at `p`.
fn token_at(cs: &Vec<char>, p: usize) -> (r: (bool, bool))
    requires
        p + 6 <= cs.len(),
    ensures
        r.0 == (cs@.subrange(p as int, p + 6) == stdout_token()),
        r.1 == (cs@.subrange(p as int, p + 6) == stderr_token()),
{
    let std = cs[p] == 's' && cs[p + 1] == 't' && cs[p + 2] == 'd';
    let out = std && cs[p + 3] == 'o' && cs[p + 4] == 'u' && cs[p + 5] == 't';
    let err = std && cs[p + 3] == 'e' && cs[p + 4] == 'r' && cs[p + 5] == 'r';
    proof {
        let t = cs@.subrange(p as int, p + 6);
        if out {
            assert(t =~= stdout_token());
        }
        if err {
            assert(t =~= stderr_token());
        }
        if t == stdout_token() {
            assert(t[0] == 's' && t[1] == 't' && t[2] == 'd' && t[3] == 'o' && t[4] == 'u' && t[5]
                == 't');
        }
        if t == stderr_token() {
            assert(t[0] == 's' && t[1] == 't' && t[2] == 'd' && t[3] == 'e' && t[4] == 'r' && t[5]
                == 'r');
        }
    }
    (out, err)
}

/// The first index that holds a space, or the length.
fn first_space(cs: &Vec<char>) -> (r: usize)
    ensures
        r <= cs.len(),
        forall|k: int| 0 <= k < r ==> cs@[k] != ' ',
        r < cs.len() ==> cs@[r as int] == ' ',
{
    let mut i: usize = 0;
    while i < cs.len() && cs[i] != ' '
        invariant
            i <= cs.len(),
            forall|k: int| 0 <= k < i ==> cs@[k] != ' ',
        decreases cs.len() - i,
    {
        i = i + 1;
    }
    i
}

/// The first index from `lo` that holds white space, or the length.
fn first_white_space(cs: &Vec<char>, lo: usize) -> (r: usize)
    requires
        lo <= cs.len(),
    ensures
        lo <= r <= cs.len(),
        forall|k: int| lo <= k < r ==> !is_white_space(cs@[k]),
        r < cs.len() ==> is_white_space(cs@[r as int]),
{
    let mut j: usize = lo;
    while j < cs.len() && !is_white_space_exec(cs[j])
        invariant
            lo <= j <= cs.len(),
            forall|k: int| lo <= k < j ==> !is_white_space(cs@[k]),
        decreases cs.len() - j,
    {
        j = j + 1;
    }
    j
}

fn all_ts_chars(cs: &Vec<char>, hi: usize) -> (b: bool)
    requires
        hi <= cs.len(),
    ensures
        b == (forall|k: int| 0 <= k < hi ==> is_ts_char(#[trigger] cs@[k])),
{
    let mut k: usize = 0;
    while k < hi
        invariant
            k <= hi <= cs.len(),
            forall|m: int| 0 <= m < k ==> is_ts_char(#[trigger] cs@[m]),
        decreases hi - k,
    {
        if !is_ts_char_exec(cs[k]) {
            return false;
        }
        k = k + 1;
    }
    true
}

fn no_newline_from(cs: &Vec<char>, lo: usize) -> (b: bool)
    requires
        lo <= cs.len(),
    ensures
        b == (forall|k: int| lo <= k < cs.len() ==> #[trigger] cs@[k] != '\n'),
{
    let mut k: usize = lo;
    while k < cs.len()
        invariant
            lo <= k <= cs.len(),
            forall|m: int| lo <= m < k ==> #[trigger] cs@[m] != '\n',
        decreases cs.len() - k,
    {
        if cs[k] == '\n' {
            return false;
        }
        k = k + 1;
    }
    true
}

/// Where the line splits into its four fields, if it follows the grammar.
fn find_split(cs: &Vec<char>) -> (r: Option<(usize, usize)>)
    ensures
        match r {
            Some((i, j)) => grammar_split(cs@, i as int, j as int),
            None => !is_cri_line(cs@),
        },
{
    let n = cs.len();
    let i = first_space(cs);
    if i >= n || n - i <= 9 {
        proof {
            assert forall|i2: int, j2: int| !grammar_split(cs@, i2, j2) by {
                if grammar_split(cs@, i2, j2) {
                    if i2 < i {
                    } else if i < i2 {
                        assert(is_ts_char(cs@[i as int]));
                    }
                }
            }
        }
        return None;
    }
    let j = first_white_space(cs, i + 8);
    let (out, err) = token_at(cs, i + 1);
    let shape = j > i + 8 && j < n && cs[j] == ' ' && cs[i + 7] == ' ' && (out || err);
    if shape && all_ts_chars(cs, i) && no_newline_from(cs, j + 1) {
        Some((i, j))
    } else {
        proof {
            assert forall|i2: int, j2: int| !grammar_split(cs@, i2, j2) by {
                if grammar_split(cs@, i2, j2) {
                    if i < i2 {
                        assert(is_ts_char(cs@[i as int]));
                    }
                    assert(i2 == i);
                    if j < j2 {
                        assert(!is_white_space(cs@[j as int]));
                    }
                    assert(j2 == j);
                    assert(forall|k: int| 0 <= k < i ==> is_ts_char(#[trigger] cs@[k]));
                    assert(forall|k: int| j + 1 <= k < n ==> #[trigger] cs@[k] != '\n');
                }
            }
        }
        None
    }
}

/// The colon-separated pieces of characters `a .. b` of `line`.
fn split_tags(line: &str, cs: &Vec<char>, a: usize, b: usize) -> (r: Vec<String>)
    requires
        cs@ == line@,
        a <= b <= cs.len(),
    ensures
        r@.map_values(|t: String| t@) == split_on(line@.subrange(a as int, b as int), ':'),
{
    let mut pieces: Vec<String> = Vec::new();
    let mut start: usize = a;
    let mut k: usize = a;
    proof {
        assert(line@.subrange(a as int, a as int) =~= Seq::<char>::empty());
        assert(pieces@.map_values(|t: String| t@).push(line@.subrange(start as int, k as int))
            =~= split_on(line@.subrange(a as int, k as int), ':'));
    }
    while k < b
        invariant
            a <= start <= k <= b <= cs.len(),
            cs@ == line@,
            pieces@.map_values(|t: String| t@).push(line@.subrange(start as int, k as int))
                == split_on(line@.subrange(a as int, k as int), ':'),
        decreases b - k,
    {
        proof {
            lemma_split_on_step(line@, a as int, k as int, ':');
        }
        let ghost before = pieces@.map_values(|t: String| t@);
        if cs[k] == ':' {
            let piece = line.substring_char(start, k).to_owned();
            pieces.push(piece);
            proof {
                assert(pieces@.map_values(|t: String| t@) =~= before.push(
                    line@.subrange(start as int, k as int),
                ));
                assert(line@.subrange(k + 1, k + 1) =~= Seq::<char>::empty());
            }
            start = k + 1;
        } else {
            proof {
                assert(line@.subrange(start as int, k + 1) =~= line@.subrange(
                    start as int,
                    k as int,
                ).push(line@[k as int]));
                assert(before.push(line@.subrange(start as int, k + 1)) =~= before.push(
                    line@.subrange(start as int, k as int),
                ).update(before.len() as int, line@.subrange(start as int, k + 1)));
            }
        }
        k = k + 1;
    }
    let ghost before = pieces@.map_values(|t: String| t@);
    let last = line.substring_char(start, b).to_owned();
    pieces.push(last);
    proof {
        assert(pieces@.map_values(|t: String| t@) =~= before.push(
            line@.subrange(start as int, b as int),
        ));
    }
    pieces
}

/// The records of the lines of a batch that parse, in order.
pub open spec fn records_of(lines: Seq<Seq<char>>) -> Seq<LogRecord>
    decreases lines.len(),
{
    if lines.len() == 0 {
        Seq::empty()
    } else {
        let prev = records_of(lines.drop_last());
        match cri_record(lines.last()) {
            Some(r) => prev.push(r),
            None => prev,
        }
    }
}

/// Parses one line of the form `<timestamp> <stream> <tags> <body>`.
pub fn parse_cri_log_line(line: &str) -> (r: Option<LogLine>)
    ensures
        match r {
            Some(x) => cri_record(line@) == Some(x@),
            None => cri_record(line@).is_none(),
        },
        forall|i: int, j: int|
            #![trigger grammar_split(line@, i, j)]
            grammar_split(line@, i, j) && is_plain_rfc3339(line@.subrange(0, i)) ==> r.is_some()
                && r.unwrap().datetime.instant() == rfc3339_nanos(line@.subrange(0, i))
                && r.unwrap().datetime.offset == rfc3339_offset(line@.subrange(0, i)),
{
    let cs = chars_of(line);
    let n = cs.len();
    match find_split(&cs) {
        None => None,
        Some((i, j)) => {
            proof {
                let (a, b) = choose|a: int, b: int| grammar_split(line@, a, b);
                lemma_split_unique(line@, i as int, j as int, a, b);
            }
            let ts = line.substring_char(0, i);
            proof {
                assert forall|i2: int, j2: int| grammar_split(line@, i2, j2) implies i2 == i
                    && j2 == j by {
                    lemma_split_unique(line@, i as int, j as int, i2, j2);
                }
            }
            match parse_timestamp(ts) {
                None => None,
                Some(t) => {
                    let (out, _) = token_at(&cs, i + 1);
                    let stream = if out {
                        OutputStream::StdOut
                    } else {
                        OutputStream::StdErr
                    };
                    let tags = split_tags(line, &cs, i + 8, j);
                    let body = line.substring_char(j + 1, n).to_owned();
                    Some(LogLine { datetime: t, stream, tags, line: body })
                },
            }
        },
    }
}

/// Parses each `\n`-separated line of a batch, keeping the records of the
/// lines that parse, in their order.
pub fn parse_cri_log_lines(lines: &str) -> (r: Vec<LogLine>)
    ensures
        r@.map_values(|x: LogLine| x@) == records_of(split_on(lines@, '\n')),
{
    let cs = chars_of(lines);
    let n = cs.len();
    let mut out: Vec<LogLine> = Vec::new();
    let ghost mut done: Seq<Seq<char>> = Seq::empty();
    let mut start: usize = 0;
    let mut k: usize = 0;
    proof {
        assert(lines@.subrange(0, 0) =~= Seq::<char>::empty());
        assert(done.push(lines@.subrange(0, 0)) =~= split_on(lines@.subrange(0, 0), '\n'));
    }
    while k < n
        invariant
            start <= k <= n,
            n == cs.len(),
            cs@ == lines@,
            done.push(lines@.subrange(start as int, k as int)) == split_on(
                lines@.subrange(0, k as int),
                '\n',
            ),
            out@.map_values(|x: LogLine| x@) == records_of(done),
        decreases n - k,
    {
        proof {
            lemma_split_on_step(lines@, 0, k as int, '\n');
        }
        if cs[k] == '\n' {
            let piece = lines.substring_char(start, k);
            let ghost before = out@.map_values(|x: LogLine| x@);
            let ghost next = done.push(piece@);
            proof {
                assert(next.drop_last() =~= done);
            }
            match parse_cri_log_line(piece) {
                Some(x) => {
                    out.push(x);
                    proof {
                        assert(out@.map_values(|x: LogLine| x@) =~= before.push(
                            cri_record(piece@).unwrap(),
                        ));
                    }
                },
                None => {},
            }
            proof {
                done = next;
                assert(lines@.subrange(k + 1, k + 1) =~= Seq::<char>::empty());
            }
            start = k + 1;
        } else {
            proof {
                assert(lines@.subrange(start as int, k + 1) =~= lines@.subrange(
                    start as int,
                    k as int,
                ).push(lines@[k as int]));
                assert(done.push(lines@.subrange(start as int, k + 1)) =~= done.push(
                    lines@.subrange(start as int, k as int),
                ).update(done.len() as int, lines@.subrange(start as int, k + 1)));
            }
        }
        k = k + 1;
    }
    let piece = lines.substring_char(start, n);
    let ghost before = out@.map_values(|x: LogLine| x@);
    let ghost next = done.push(piece@);
    proof {
        assert(next.drop_last() =~= done);
        assert(lines@.subrange(0, n as int) =~= lines@);
    }
    match parse_cri_log_line(piece) {
        Some(x) => {
            out.push(x);
            proof {
                assert(out@.map_values(|x: LogLine| x@) =~= before.push(
                    cri_record(piece@).unwrap(),
                ));
            }
        },
        None => {},
    }
    out
}

impl PartialEq for LogLine {
    fn eq(&self, o: &LogLine) -> (r: bool) {
        if self.datetime != o.datetime || self.stream != o.stream || self.line != o.line
            || self.tags.len() != o.tags.len() {
            proof {
                if self.tags.len() != o.tags.len() {
                    assert(self@.tags.len() != o@.tags.len());
                }
            }
            return false;
        }
        let mut k: usize = 0;
        while k < self.tags.len()
            invariant
                k <= self.tags.len() == o.tags.len(),
                forall|m: int| 0 <= m < k ==> self.tags@[m]@ == o.tags@[m]@,
            decreases self.tags.len() - k,
        {
            if self.tags[k] != o.tags[k] {
                proof {
                    assert(self@.tags[k as int] != o@.tags[k as int]);
                }
                return false;
            }
            k = k + 1;
        }
        proof {
            assert(self@.tags =~= o@.tags);
        }
        true
    }
}

impl vstd::std_specs::cmp::PartialEqSpecImpl for LogLine {
    open spec fn obeys_eq_spec() -> bool {
        true
    }

    open spec fn eq_spec(&self, o: &LogLine) -> bool {
        self@ == o@
    }
}

proof fn lemma_split_on_nonempty(s: Seq<char>, sep: char)
    ensures
        split_on(s, sep).len() >= 1,
    decreases s.len(),
{
    if s.len() > 0 {
        lemma_split_on_nonempty(s.drop_last(), sep);
    }
}

/// A text without the separator is a single piece.
pub proof fn lemma_split_on_single(s: Seq<char>, sep: char)
    requires
        forall|k: int| 0 <= k < s.len() ==> #[trigger] s[k] != sep,
    ensures
        split_on(s, sep) == seq![s],
    decreases s.len(),
{
    if s.len() > 0 {
        let d = s.drop_last();
        assert forall|k: int| 0 <= k < d.len() implies #[trigger] d[k] != sep by {
            assert(d[k] == s[k]);
        }
        lemma_split_on_single(d, sep);
        assert(d.push(s.last()) =~= s);
        assert(seq![d].update(0, d.push(s.last())) =~= seq![s]);
    } else {
        assert(s =~= Seq::<char>::empty());
        assert(seq![Seq::<char>::empty()] =~= seq![s]);
    }
}

/// Splitting `x`, a separator, then `y` gives the pieces of `x` and then
/// those of `y`.
pub proof fn lemma_split_on_concat(x: Seq<char>, y: Seq<char>, sep: char)
    ensures
        split_on(x.push(sep) + y, sep) == split_on(x, sep) + split_on(y, sep),
    decreases y.len(),
{
    let s = x.push(sep) + y;
    lemma_split_on_nonempty(x, sep);
    if y.len() == 0 {
        assert(s =~= x.push(sep));
        assert(s.drop_last() =~= x);
        assert(split_on(x, sep).push(Seq::empty()) =~= split_on(x, sep) + seq![Seq::<char>::empty()]);
    } else {
        let d = y.drop_last();
        assert(s.drop_last() =~= x.push(sep) + d);
        lemma_split_on_concat(x, d, sep);
        lemma_split_on_nonempty(d, sep);
        let a = split_on(x, sep);
        let b = split_on(d, sep);
        if y.last() == sep {
            assert((a + b).push(Seq::empty()) =~= a + b.push(Seq::empty()));
        } else {
            assert((a + b).update((a + b).len() - 1, (a + b).last().push(y.last())) =~= a
                + b.update(b.len() - 1, b.last().push(y.last())));
        }
    }
}

/// The records of two batches one after the other.
pub proof fn lemma_records_of_concat(a: Seq<Seq<char>>, b: Seq<Seq<char>>)
    ensures
        records_of(a + b) == records_of(a) + records_of(b),
    decreases b.len(),
{
    if b.len() == 0 {
        assert(a + b =~= a);
        assert(records_of(a) + records_of(b) =~= records_of(a));
    } else {
        assert((a + b).drop_last() =~= a + b.drop_last());
        lemma_records_of_concat(a, b.drop_last());
        let ra = records_of(a);
        let rb = records_of(b.drop_last());
        match cri_record(b.last()) {
            Some(r) => {
                assert((ra + rb).push(r) =~= ra + rb.push(r));
            },
            None => {},
        }
    }
}

proof fn lemma_records_of_one(line: Seq<char>)
    ensures
        records_of(seq![line]) == (match cri_record(line) {
            Some(r) => seq![r],
            None => Seq::<LogRecord>::empty(),
        }),
{
    assert(seq![line].drop_last() =~= Seq::<Seq<char>>::empty());
    assert(seq![line].last() == line);
    assert(records_of(Seq::<Seq<char>>::empty()) == Seq::<LogRecord>::empty());
    match cri_record(line) {
        Some(r) => {
            assert(Seq::<LogRecord>::empty().push(r) =~= seq![r]);
        },
        None => {},
    }
}

/// The records of the lines `a`, `b` and `c` joined by line breaks.
proof fn lemma_records_of_three(a: Seq<char>, b: Seq<char>, c: Seq<char>)
    requires
        forall|k: int| 0 <= k < a.len() ==> #[trigger] a[k] != '\n',
        forall|k: int| 0 <= k < b.len() ==> #[trigger] b[k] != '\n',
        forall|k: int| 0 <= k < c.len() ==> #[trigger] c[k] != '\n',
    ensures
        records_of(split_on(a.push('\n') + b.push('\n') + c, '\n')) == records_of(seq![a])
            + records_of(seq![b]) + records_of(seq![c]),
{
    lemma_split_on_single(a, '\n');
    lemma_split_on_single(b, '\n');
    lemma_split_on_single(c, '\n');
    lemma_split_on_concat(b, c, '\n');
    assert(a.push('\n') + b.push('\n') + c =~= a.push('\n') + (b.push('\n') + c));
    lemma_split_on_concat(a, b.push('\n') + c, '\n');
    assert(split_on(a.push('\n') + b.push('\n') + c, '\n') =~= seq![a] + (seq![b] + seq![c]));
    lemma_records_of_concat(seq![b], seq![c]);
    lemma_records_of_concat(seq![a], seq![b] + seq![c]);
}

/// Three lines that each parse give three records, in the order of the
/// lines.
pub proof fn lemma_batch_keeps_order(a: Seq<char>, b: Seq<char>, c: Seq<char>)
    requires
        forall|k: int| 0 <= k < a.len() ==> #[trigger] a[k] != '\n',
        forall|k: int| 0 <= k < b.len() ==> #[trigger] b[k] != '\n',
        forall|k: int| 0 <= k < c.len() ==> #[trigger] c[k] != '\n',
        cri_record(a).is_some(),
        cri_record(b).is_some(),
        cri_record(c).is_some(),
    ensures
        records_of(split_on(a.push('\n') + b.push('\n') + c, '\n')) == seq![
            cri_record(a).unwrap(),
            cri_record(b).unwrap(),
            cri_record(c).unwrap(),
        ],
{
    lemma_records_of_three(a, b, c);
    lemma_records_of_one(a);
    lemma_records_of_one(b);
    lemma_records_of_one(c);
    assert(seq![cri_record(a).unwrap()] + seq![cri_record(b).unwrap()] + seq![
        cri_record(c).unwrap(),
    ] =~= seq![cri_record(a).unwrap(), cri_record(b).unwrap(), cri_record(c).unwrap()]);
}

/// A line that does not parse, between two that do, is left out and the
/// other two keep their order.
pub proof fn lemma_bad_line_left_out(a: Seq<char>, bad: Seq<char>, c: Seq<char>)
    requires
        forall|k: int| 0 <= k < a.len() ==> #[trigger] a[k] != '\n',
        forall|k: int| 0 <= k < bad.len() ==> #[trigger] bad[k] != '\n',
        forall|k: int| 0 <= k < c.len() ==> #[trigger] c[k] != '\n',
        cri_record(a).is_some(),
        cri_record(bad).is_none(),
        cri_record(c).is_some(),
    ensures
        records_of(split_on(a.push('\n') + bad.push('\n') + c, '\n')) == seq![
            cri_record(a).unwrap(),
            cri_record(c).unwrap(),
        ],
{
    lemma_records_of_three(a, bad, c);
    lemma_records_of_one(a);
    lemma_records_of_one(bad);
    lemma_records_of_one(c);
    assert(seq![cri_record(a).unwrap()] + Seq::<LogRecord>::empty() + seq![
        cri_record(c).unwrap(),
    ] =~= seq![cri_record(a).unwrap(), cri_record(c).unwrap()]);
}

/// The characters ` stderr F `.
pub open spec fn stderr_full_infix() -> Seq<char> {
    seq![' ', 's', 't', 'd', 'e', 'r', 'r', ' ', 'F', ' ']
}

/// A line `<ts> stderr F <msg>` parses to stream `StdErr`, the single tag
/// `F` and the body `msg` exactly, whatever `msg` holds short of a line
/// break.
pub proof fn lemma_stderr_line_round_trip(ts: Seq<char>, msg: Seq<char>)
    requires
        forall|k: int| 0 <= k < ts.len() ==> is_ts_char(#[trigger] ts[k]),
        timestamp_of(ts).is_some(),
        forall|k: int| 0 <= k < msg.len() ==> #[trigger] msg[k] != '\n',
    ensures
        cri_record(ts + stderr_full_infix() + msg) == Some(
            LogRecord {
                datetime: timestamp_of(ts).unwrap(),
                stream: OutputStream::StdErr,
                tags: seq![seq!['F']],
                body: msg,
            },
        ),
{
    let line = ts + stderr_full_infix() + msg;
    let i = ts.len() as int;
    let j = i + 9;
    assert(line.subrange(0, i) =~= ts);
    assert(line.subrange(i + 1, i + 7) =~= stderr_token());
    assert(line.subrange(i + 8, j) =~= seq!['F']);
    assert(line.subrange(j + 1, line.len() as int) =~= msg);
    assert forall|k: int| 0 <= k < i implies is_ts_char(#[trigger] line[k]) by {
        assert(line[k] == ts[k]);
    }
    assert forall|k: int| j < k < line.len() implies #[trigger] line[k] != '\n' by {
        assert(line[k] == msg[k - j - 1]);
    }
    assert(line[i] == ' ' && line[i + 7] == ' ' && line[j] == ' ');
    assert(line[i + 8] == 'F');
    assert(grammar_split(line, i, j));
    let (a, b) = choose|a: int, b: int| grammar_split(line, a, b);
    lemma_split_unique(line, i, j, a, b);
    assert(stderr_token() != stdout_token()) by {
        assert(stderr_token()[3] != stdout_token()[3]);
    }
    lemma_split_on_single(seq!['F'], ':');
}

/// Only the exact word `stdout` gives `StdOut`: a line that parses with any
/// other stream word is on `StdErr`.
pub proof fn lemma_stream_defaults_to_stderr(line: Seq<char>, i: int, j: int)
    requires
        grammar_split(line, i, j),
        line.subrange(i + 1, i + 7) != stdout_token(),
        cri_record(line).is_some(),
    ensures
        cri_record(line).unwrap().stream == OutputStream::StdErr,
{
    let (a, b) = choose|a: int, b: int| grammar_split(line, a, b);
    lemma_split_unique(line, i, j, a, b);
}

} // verus!
