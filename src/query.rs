//! The query language: whitespace-separated terms compiled into filter and sort clauses.
//!
//! Syntax:
//!   `keyword`           full-text search
//!   `artist:beatles`    substring match on a field
//!   `title:=Help!`      exact match
//!   `genre::^rock`      pattern match
//!   `year:1960..1969`   range
//!   `added:-2w`         added within the last two weeks
//!   `^genre:jazz`       negation
//!   `year+`, `year-`    sort ascending, descending
use vstd::prelude::*;

use crate::text::{
    chars_equal, chars_of, copy_range, is_space, push_all, push_str, space, string_of, string_of_range,
};
use crate::Error;

verus! {

/// How a field term matches its field.
#[derive(Debug, Clone, PartialEq, Eq)]
pub enum FieldOp {
    /// The field contains the value.
    Substring(String),
    /// The field equals the value.
    Exact(String),
    /// The field matches a pattern.
    Regex(String),
    /// The field lies between the bounds that are given.
    Range { start: Option<String>, end: Option<String> },
    /// The field is on or after a date, written `YYYY-MM-DD`.
    RelativeDate(String),
}

/// One term of a query.
#[derive(Debug, Clone, PartialEq, Eq)]
pub enum QueryTerm {
    /// Full-text search.
    FullText(String),
    /// A filter on one field.
    Field { negated: bool, name: String, op: FieldOp },
    /// A sort directive.
    Sort { field: String, ascending: bool },
}

/// `FieldOp` with its strings seen as character sequences.
pub enum OpModel {
    Substring(Seq<char>),
    Exact(Seq<char>),
    Regex(Seq<char>),
    Range { start: Option<Seq<char>>, end: Option<Seq<char>> },
    RelativeDate(Seq<char>),
}

/// `QueryTerm` with its strings seen as character sequences.
pub enum TermModel {
    FullText(Seq<char>),
    Field { negated: bool, name: Seq<char>, op: OpModel },
    Sort { field: Seq<char>, ascending: bool },
}

pub open spec fn opt_chars(o: Option<String>) -> Option<Seq<char>> {
    match o {
        Some(s) => Some(s@),
        None => None,
    }
}

impl View for FieldOp {
    type V = OpModel;

    open spec fn view(&self) -> OpModel {
        match self {
            FieldOp::Substring(v) => OpModel::Substring(v@),
            FieldOp::Exact(v) => OpModel::Exact(v@),
            FieldOp::Regex(v) => OpModel::Regex(v@),
            FieldOp::Range { start, end } => OpModel::Range {
                start: opt_chars(*start),
                end: opt_chars(*end),
            },
            FieldOp::RelativeDate(v) => OpModel::RelativeDate(v@),
        }
    }
}

impl View for QueryTerm {
    type V = TermModel;

    open spec fn view(&self) -> TermModel {
        match self {
            QueryTerm::FullText(t) => TermModel::FullText(t@),
            QueryTerm::Field { negated, name, op } => TermModel::Field {
                negated: *negated,
                name: name@,
                op: op@,
            },
            QueryTerm::Sort { field, ascending } => TermModel::Sort {
                field: field@,
                ascending: *ascending,
            },
        }
    }
}

pub open spec fn terms_view(ts: Seq<QueryTerm>) -> Seq<TermModel> {
    ts.map_values(|t: QueryTerm| t@)
}

/// The words of `s` after the partial word `cur`: maximal runs of characters that are not
/// white space.
pub open spec fn words_after(s: Seq<char>, cur: Seq<char>) -> Seq<Seq<char>>
    decreases s.len(),
{
    if s.len() == 0 {
        if cur.len() == 0 {
            seq![]
        } else {
            seq![cur]
        }
    } else if is_space(s[0]) {
        if cur.len() == 0 {
            words_after(s.drop_first(), cur)
        } else {
            seq![cur] + words_after(s.drop_first(), seq![])
        }
    } else {
        words_after(s.drop_first(), cur.push(s[0]))
    }
}

/// The whitespace-separated words of `s`, in order.
pub open spec fn words(s: Seq<char>) -> Seq<Seq<char>> {
    words_after(s, seq![])
}

/// `k` is the first position of `c` in `s`.
pub open spec fn is_first(s: Seq<char>, c: char, k: int) -> bool {
    0 <= k < s.len() && s[k] == c && forall|j: int| 0 <= j < k ==> s[j] != c
}

/// `s` holds `..` at position `j`.
pub open spec fn is_pair(s: Seq<char>, j: int) -> bool {
    0 <= j && j + 1 < s.len() && s[j] == '.' && s[j + 1] == '.'
}

/// `s` holds `..` exactly once, at `p`, and nowhere after it: splitting at `..` gives two
/// parts.
pub open spec fn splits_in_two(s: Seq<char>, p: int) -> bool {
    &&& is_pair(s, p)
    &&& forall|j: int| 0 <= j < p ==> !is_pair(s, j)
    &&& forall|j: int| p + 2 <= j ==> !is_pair(s, j)
}

/// `None` for an empty bound.
pub open spec fn bound_of(s: Seq<char>) -> Option<Seq<char>> {
    if s.len() == 0 {
        None
    } else {
        Some(s)
    }
}

pub open spec fn is_digit(c: char) -> bool {
    '0' <= c && c <= '9'
}

pub open spec fn digit_value(c: char) -> int {
    (c as u32) as int - ('0' as u32) as int
}

/// The number written in decimal by `s`.
pub open spec fn decimal_value(s: Seq<char>) -> int
    decreases s.len(),
{
    if s.len() == 0 {
        0
    } else {
        decimal_value(s.drop_last()) * 10 + digit_value(s.last())
    }
}

/// The days that a unit letter stands for, 0 for a letter that is no unit.
pub open spec fn unit_days(c: char) -> int {
    if c == 'd' {
        1
    } else if c == 'w' {
        7
    } else if c == 'm' {
        30
    } else if c == 'y' {
        365
    } else {
        0
    }
}

/// `-<digits><unit>`: how many days back it reaches.
pub open spec fn relative_days(v: Seq<char>) -> Option<int> {
    if v.len() >= 3 && v[0] == '-' && unit_days(v.last()) > 0 && (forall|i: int|
        1 <= i < v.len() - 1 ==> is_digit(#[trigger] v[i])) {
        Some(decimal_value(v.subrange(1, v.len() - 1)) * unit_days(v.last()))
    } else {
        None
    }
}

/// What chrono writes, as `YYYY-MM-DD`, for the date with the given day number (day 1 is
/// 1 January of year 1); `None` where chrono has no such date.
pub uninterp spec fn iso_date_of(day: int) -> Option<Seq<char>>;

/// The date that a relative date value stands for, counted back from day `today`.
pub open spec fn relative_date(v: Seq<char>, today: int) -> Option<Seq<char>> {
    match relative_days(v) {
        Some(n) => if i32::MIN <= today - n <= i32::MAX {
            iso_date_of(today - n)
        } else {
            None
        },
        None => None,
    }
}

pub open spec fn added_field() -> Seq<char> {
    seq!['a', 'd', 'd', 'e', 'd']
}

/// The operation that `field:value` asks for.
pub open spec fn op_of(field: Seq<char>, value: Seq<char>, today: int) -> OpModel {
    if value.len() > 0 && value[0] == '=' {
        OpModel::Exact(value.drop_first())
    } else if value.len() > 0 && value[0] == ':' {
        OpModel::Regex(value.drop_first())
    } else if exists|p: int| splits_in_two(value, p) {
        let p = choose|p: int| splits_in_two(value, p);
        OpModel::Range { start: bound_of(value.take(p)), end: bound_of(value.skip(p + 2)) }
    } else if field == added_field() && relative_date(value, today) is Some {
        OpModel::RelativeDate(relative_date(value, today)->0)
    } else {
        OpModel::Substring(value)
    }
}

/// The term that the word `t`, with any leading `^` taken off, stands for.
pub open spec fn filter_term(t: Seq<char>, negated: bool, today: int) -> TermModel {
    if exists|k: int| is_first(t, ':', k) {
        let k = choose|k: int| is_first(t, ':', k);
        TermModel::Field { negated, name: t.take(k), op: op_of(t.take(k), t.skip(k + 1), today) }
    } else {
        TermModel::FullText(t)
    }
}

/// The term that one word of a query stands for.
pub open spec fn term_of(w: Seq<char>, today: int) -> TermModel {
    if w.len() > 0 && w.last() == '+' {
        TermModel::Sort { field: w.drop_last(), ascending: true }
    } else if w.len() > 0 && w.last() == '-' {
        TermModel::Sort { field: w.drop_last(), ascending: false }
    } else if w.len() > 0 && w[0] == '^' {
        filter_term(w.drop_first(), true, today)
    } else {
        filter_term(w, false, today)
    }
}

/// The terms that a sequence of words stands for.
pub open spec fn word_terms(ws: Seq<Seq<char>>, today: int) -> Seq<TermModel> {
    ws.map_values(|w: Seq<char>| term_of(w, today))
}

/// The terms of a query, one for each word.
pub open spec fn query_terms(q: Seq<char>, today: int) -> Seq<TermModel> {
    word_terms(words(q), today)
}

/// Relies on chrono's `NaiveDate::from_num_days_from_ce_opt` and its `%Y-%m-%d` formatting:
/// the date with the given day number, written out, or `None` where chrono has no such date.
#[verifier::external_body]
fn iso_date(day: i32) -> (r: Option<String>)
    ensures
        match r {
            Some(s) => iso_date_of(day as int) == Some(s@),
            None => iso_date_of(day as int) is None,
        },
{
    match chrono::NaiveDate::from_num_days_from_ce_opt(day) {
        Some(d) => Some(d.format("%Y-%m-%d").to_string()),
        None => None,
    }
}

/// Relies on chrono's `Utc::now`: today's day number in UTC (day 1 is 1 January of year 1).
#[verifier::external_body]
fn today_day_number() -> (r: i32) {
    chrono::Datelike::num_days_from_ce(&chrono::Utc::now().date_naive())
}

/// The date that a relative date value such as `-2w` stands for, counted back from day `today`.
pub fn parse_relative_date(value: &[char], today: i32) -> (r: Option<String>)
    ensures
        match r {
            Some(s) => relative_date(value@, today as int) == Some(s@),
            None => relative_date(value@, today as int) is None,
        },
{
    let n = value.len();
    if n < 3 || value[0] != '-' {
        return None;
    }
    let unit: i64 = if value[n - 1] == 'd' {
        1
    } else if value[n - 1] == 'w' {
        7
    } else if value[n - 1] == 'm' {
        30
    } else if value[n - 1] == 'y' {
        365
    } else {
        return None;
    };
    let mut acc: u64 = 0;
    let mut big = false;
    let mut i: usize = 1;
    while i < n - 1
        invariant
            n == value@.len(),
            n >= 3,
            1 <= i <= n - 1,
            forall|j: int| 1 <= j < i ==> is_digit(#[trigger] value@[j]),
            !big ==> acc == decimal_value(value@.subrange(1, i as int)),
            !big ==> acc <= 100_000_000_009,
            big ==> decimal_value(value@.subrange(1, i as int)) > 10_000_000_000,
        decreases n - 1 - i,
    {
        let c = value[i];
        if c < '0' || c > '9' {
            assert(!is_digit(value@[i as int]));
            return None;
        }
        let d = (c as u32 - '0' as u32) as u64;
        let ghost prev = decimal_value(value@.subrange(1, i as int));
        assert(value@.subrange(1, i + 1).drop_last() =~= value@.subrange(1, i as int));
        assert(decimal_value(value@.subrange(1, i + 1)) == prev * 10 + d);
        if big || acc > 10_000_000_000 {
            big = true;
        } else {
            acc = acc * 10 + d;
        }
        i = i + 1;
    }
    assert(relative_days(value@) is Some);
    if big {
        return None;
    }
    let back: i64 = acc as i64 * unit;
    let day: i64 = today as i64 - back;
    if day < i32::MIN as i64 || day > i32::MAX as i64 {
        return None;
    }
    iso_date(day as i32)
}

/// The first `..` in `v` at or after `from`.
fn find_pair(v: &[char], from: usize) -> (r: Option<usize>)
    ensures
        match r {
            Some(p) => from <= p && is_pair(v@, p as int) && forall|j: int|
                from <= j < p ==> !is_pair(v@, j),
            None => forall|j: int| from <= j ==> !is_pair(v@, j),
        },
{
    let mut j: usize = from;
    while j < v.len()
        invariant
            from <= j,
            forall|k: int| from <= k < j ==> !is_pair(v@, k),
        decreases v@.len() - j,
    {
        if j + 1 < v.len() && v[j] == '.' && v[j + 1] == '.' {
            return Some(j);
        }
        j = j + 1;
    }
    None
}

/// The operation that the value of `field:value` asks for.
pub fn parse_field_op(field: &[char], value: &[char], today: i32) -> (r: FieldOp)
    ensures
        r@ == op_of(field@, value@, today as int),
{
    let n = value.len();
    if n > 0 && value[0] == '=' {
        let s = string_of_range(value, 1, n);
        assert(value@.subrange(1, n as int) =~= value@.drop_first());
        return FieldOp::Exact(s);
    }
    if n > 0 && value[0] == ':' {
        let s = string_of_range(value, 1, n);
        assert(value@.subrange(1, n as int) =~= value@.drop_first());
        return FieldOp::Regex(s);
    }
    let first = find_pair(value, 0);
    match first {
        Some(p) => {
            let second = find_pair(value, p + 2);
            if second.is_none() {
                assert(splits_in_two(value@, p as int));
                let ghost q = choose|q: int| splits_in_two(value@, q);
                assert(q == p) by {
                    if q < p {
                        assert(!is_pair(value@, q));
                    } else if q > p {
                        assert(!is_pair(value@, p as int));
                    }
                }
                let start = if p == 0 {
                    None
                } else {
                    Some(string_of_range(value, 0, p))
                };
                let end = if p + 2 == n {
                    None
                } else {
                    Some(string_of_range(value, p + 2, n))
                };
                assert(value@.subrange(0, p as int) =~= value@.take(p as int));
                assert(value@.subrange(p + 2, n as int) =~= value@.skip(p + 2));
                return FieldOp::Range { start, end };
            } else {
                assert forall|q: int| !splits_in_two(value@, q) by {
                    let s = second->0;
                    if is_pair(value@, q) && q < p {
                    } else if q > p {
                    } else if q == p {
                        assert(is_pair(value@, s as int));
                    }
                }
            }
        },
        None => {},
    }
    if chars_equal(field, &['a', 'd', 'd', 'e', 'd']) && n > 0 && value[0] == '-' {
        let date = parse_relative_date(value, today);
        if let Some(d) = date {
            return FieldOp::RelativeDate(d);
        }
    }
    proof {
        if field@ == added_field() && relative_date(value@, today as int) is Some {
            assert(value@[0] == '-');
        }
    }
    FieldOp::Substring(string_of(value))
}

/// The term that one word of a query stands for.
pub fn parse_word(w: &[char], today: i32) -> (r: QueryTerm)
    ensures
        r@ == term_of(w@, today as int),
{
    let n = w.len();
    if n > 0 && w[n - 1] == '+' {
        let field = string_of_range(w, 0, n - 1);
        assert(w@.subrange(0, n - 1) =~= w@.drop_last());
        return QueryTerm::Sort { field, ascending: true };
    }
    if n > 0 && w[n - 1] == '-' {
        let field = string_of_range(w, 0, n - 1);
        assert(w@.subrange(0, n - 1) =~= w@.drop_last());
        return QueryTerm::Sort { field, ascending: false };
    }
    let negated = n > 0 && w[0] == '^';
    let a: usize = if negated {
        1
    } else {
        0
    };
    let ghost t = if negated {
        w@.drop_first()
    } else {
        w@
    };
    assert(t =~= w@.subrange(a as int, n as int));
    let mut k: usize = a;
    while k < n && w[k] != ':'
        invariant
            a <= k <= n == w@.len(),
            forall|j: int| a <= j < k ==> w@[j] != ':',
        decreases n - k,
    {
        k = k + 1;
    }
    if k < n {
        assert(is_first(t, ':', k - a));
        assert forall|c: int| is_first(t, ':', c) implies c == k - a by {
            if c < k - a {
                assert(w@[c + a] != ':');
            } else if c > k - a {
                assert(t[k - a] == ':');
            }
        }
        let name = copy_range(w, a, k);
        let value = copy_range(w, k + 1, n);
        assert(name@ =~= t.take(k - a));
        assert(value@ =~= t.skip(k - a + 1));
        let op = parse_field_op(name.as_slice(), value.as_slice(), today);
        QueryTerm::Field { negated, name: string_of(name.as_slice()), op }
    } else {
        assert forall|c: int| !is_first(t, ':', c) by {
            if 0 <= c < t.len() {
                assert(t[c] == w@[c + a]);
            }
        }
        QueryTerm::FullText(string_of_range(w, a, n))
    }
}

/// The terms of `query`, with relative dates counted back from day `today`.
pub fn parse_on_day(query: &str, today: i32) -> (r: Result<Vec<QueryTerm>, Error>)
    ensures
        r matches Ok(v) && terms_view(v@) == query_terms(query@, today as int),
{
    let q = chars_of(query);
    let n = q.len();
    let mut out: Vec<QueryTerm> = Vec::new();
    let mut i: usize = 0;
    let mut start: usize = 0;
    let ghost mut done: Seq<Seq<char>> = seq![];
    assert(q@.skip(0) =~= q@);
    assert(q@.subrange(0, 0) =~= Seq::<char>::empty());
    while i < n
        invariant
            n == q@.len(),
            q@ == query@,
            0 <= start <= i <= n,
            words(q@) == done + words_after(q@.skip(i as int), q@.subrange(start as int, i as int)),
            terms_view(out@) == word_terms(done, today as int),
        decreases n - i,
    {
        let ghost rest = q@.skip(i as int);
        let ghost cur = q@.subrange(start as int, i as int);
        assert(rest.drop_first() =~= q@.skip(i + 1));
        if space(q[i]) {
            if start < i {
                let w = copy_range(q.as_slice(), start, i);
                let t = parse_word(w.as_slice(), today);
                let ghost before = out@;
                out.push(t);
                proof {
                    assert(rest[0] == q@[i as int]);
                    assert(words_after(rest, cur) == seq![cur] + words_after(q@.skip(i + 1), seq![]));
                    assert(done + (seq![cur] + words_after(q@.skip(i + 1), seq![])) =~= done.push(cur)
                        + words_after(q@.skip(i + 1), seq![]));
                    assert(terms_view(out@) =~= terms_view(before).push(t@));
                    assert(word_terms(done.push(cur), today as int) =~= word_terms(done, today as int).push(
                        term_of(cur, today as int),
                    ));
                    done = done.push(cur);
                }
            } else {
                assert(rest[0] == q@[i as int]);
                assert(cur =~= q@.subrange(i + 1, i + 1));
            }
            i = i + 1;
            start = i;
            assert(q@.subrange(start as int, i as int) =~= Seq::<char>::empty());
        } else {
            assert(rest[0] == q@[i as int]);
            assert(cur.push(q@[i as int]) =~= q@.subrange(start as int, i + 1));
            i = i + 1;
        }
    }
    let ghost cur = q@.subrange(start as int, n as int);
    assert(q@.skip(n as int) =~= Seq::<char>::empty());
    if start < n {
        let w = copy_range(q.as_slice(), start, n);
        let t = parse_word(w.as_slice(), today);
        let ghost before = out@;
        out.push(t);
        assert(terms_view(out@) =~= terms_view(before).push(t@));
        assert(word_terms(done.push(cur), today as int) =~= word_terms(done, today as int).push(
            term_of(cur, today as int),
        ));
        assert(done + seq![cur] =~= done.push(cur));
    } else {
        assert(done + seq![] =~= done);
    }
    Ok(out)
}

/// The terms of `query`; a relative date is counted back from today.
pub fn parse(query: &str) -> (r: Result<Vec<QueryTerm>, Error>)
    ensures
        r matches Ok(v) && exists|today: int| terms_view(v@) == query_terms(query@, today),
{
    let today = today_day_number();
    parse_on_day(query, today)
}

/// `s` with each single quote doubled, as an SQL string literal needs it.
pub open spec fn escaped(s: Seq<char>) -> Seq<char>
    decreases s.len(),
{
    if s.len() == 0 {
        seq![]
    } else if s[0] == '\'' {
        seq!['\'', '\''] + escaped(s.drop_first())
    } else {
        seq![s[0]] + escaped(s.drop_first())
    }
}

/// A pattern written as a regular expression turned into a glob: `.*` becomes `*`, any other
/// `.` becomes `?`, and the anchors `^` and `$` go.
pub open spec fn glob_of(s: Seq<char>) -> Seq<char>
    decreases s.len(),
{
    if s.len() == 0 {
        seq![]
    } else if s[0] == '.' && s.len() > 1 && s[1] == '*' {
        seq!['*'] + glob_of(s.skip(2))
    } else if s[0] == '.' {
        seq!['?'] + glob_of(s.drop_first())
    } else if s[0] == '^' || s[0] == '$' {
        glob_of(s.drop_first())
    } else {
        seq![s[0]] + glob_of(s.drop_first())
    }
}

/// The SQL condition for a field operation; every value stands in a quoted literal.
pub open spec fn op_sql(name: Seq<char>, op: OpModel) -> Seq<char> {
    match op {
        OpModel::Substring(v) => name + " LIKE '%"@ + escaped(v) + "%'"@,
        OpModel::Exact(v) => name + " = '"@ + escaped(v) + "'"@,
        OpModel::Regex(p) => name + " GLOB '"@ + escaped(glob_of(p)) + "'"@,
        OpModel::Range { start, end } => match (start, end) {
            (Some(a), Some(b)) => name + " BETWEEN '"@ + escaped(a) + "' AND '"@ + escaped(b)
                + "'"@,
            (Some(a), None) => name + " >= '"@ + escaped(a) + "'"@,
            (None, Some(b)) => name + " <= '"@ + escaped(b) + "'"@,
            (None, None) => name + " IS NOT NULL"@,
        },
        OpModel::RelativeDate(d) => name + " >= '"@ + escaped(d) + "'"@,
    }
}

/// The SQL condition for a filter term.
pub open spec fn condition_of(t: TermModel) -> Seq<char> {
    match t {
        TermModel::FullText(x) => "id IN (SELECT rowid FROM items_fts WHERE items_fts MATCH '"@
            + escaped(x) + "')"@,
        TermModel::Field { negated, name, op } => if negated {
            "NOT ("@ + op_sql(name, op) + ")"@
        } else {
            op_sql(name, op)
        },
        TermModel::Sort { .. } => seq![],
    }
}

/// The conditions of the filter terms, in order.
pub open spec fn conditions(ts: Seq<TermModel>) -> Seq<Seq<char>>
    decreases ts.len(),
{
    if ts.len() == 0 {
        seq![]
    } else {
        match ts.last() {
            TermModel::Sort { .. } => conditions(ts.drop_last()),
            t => conditions(ts.drop_last()).push(condition_of(t)),
        }
    }
}

/// The sort keys of the sort terms, in order.
pub open spec fn sort_keys(ts: Seq<TermModel>) -> Seq<Seq<char>>
    decreases ts.len(),
{
    if ts.len() == 0 {
        seq![]
    } else {
        match ts.last() {
            TermModel::Sort { field, ascending } => sort_keys(ts.drop_last()).push(
                field + if ascending {
                    " ASC"@
                } else {
                    " DESC"@
                },
            ),
            _ => sort_keys(ts.drop_last()),
        }
    }
}

/// The parts joined, with `sep` between each two.
pub open spec fn joined(parts: Seq<Seq<char>>, sep: Seq<char>) -> Seq<char>
    decreases parts.len(),
{
    if parts.len() == 0 {
        seq![]
    } else if parts.len() == 1 {
        parts[0]
    } else {
        joined(parts.drop_last(), sep) + sep + parts.last()
    }
}

/// The statement for a list of terms: the filters joined by `AND`, and the sort keys, or
/// artist, album, disc and track where there is none.
pub open spec fn sql_of(ts: Seq<TermModel>) -> Seq<char> {
    let cs = conditions(ts);
    let ks = sort_keys(ts);
    "SELECT * FROM items "@ + (if cs.len() == 0 {
        seq![]
    } else {
        "WHERE "@ + joined(cs, " AND "@)
    }) + " "@ + (if ks.len() == 0 {
        "ORDER BY artist, album, disc, track"@
    } else {
        "ORDER BY "@ + joined(ks, ", "@)
    })
}

/// Appends `s` with each single quote doubled.
fn push_escaped(out: &mut Vec<char>, s: &[char])
    ensures
        final(out)@ == old(out)@ + escaped(s@),
{
    let ghost start = out@;
    let mut i: usize = 0;
    assert(s@.skip(0) =~= s@);
    while i < s.len()
        invariant
            0 <= i <= s@.len(),
            start + escaped(s@) == out@ + escaped(s@.skip(i as int)),
        decreases s@.len() - i,
    {
        let ghost before = out@;
        let ghost rest = s@.skip(i as int);
        assert(rest.drop_first() =~= s@.skip(i + 1));
        if s[i] == '\'' {
            out.push('\'');
            out.push('\'');
            assert(before + (seq!['\'', '\''] + escaped(rest.drop_first())) =~= out@ + escaped(
                s@.skip(i + 1),
            ));
        } else {
            out.push(s[i]);
            assert(before + (seq![s@[i as int]] + escaped(rest.drop_first())) =~= out@ + escaped(
                s@.skip(i + 1),
            ));
        }
        i = i + 1;
    }
    assert(s@.skip(s@.len() as int) =~= Seq::<char>::empty());
    assert(out@ + Seq::<char>::empty() =~= out@);
}

/// Turns a pattern written as a regular expression into a glob.
pub fn regex_to_glob(p: &[char]) -> (r: Vec<char>)
    ensures
        r@ == glob_of(p@),
{
    let mut out: Vec<char> = Vec::new();
    let mut i: usize = 0;
    assert(p@.skip(0) =~= p@);
    while i < p.len()
        invariant
            0 <= i <= p@.len(),
            glob_of(p@) == out@ + glob_of(p@.skip(i as int)),
        decreases p@.len() - i,
    {
        let ghost before = out@;
        let ghost rest = p@.skip(i as int);
        assert(rest.drop_first() =~= p@.skip(i + 1));
        if p[i] == '.' && i + 1 < p.len() && p[i + 1] == '*' {
            assert(rest.skip(2) =~= p@.skip(i + 2));
            out.push('*');
            assert(before + (seq!['*'] + glob_of(rest.skip(2))) =~= out@ + glob_of(p@.skip(i + 2)));
            i = i + 2;
        } else if p[i] == '.' {
            out.push('?');
            assert(before + (seq!['?'] + glob_of(rest.drop_first())) =~= out@ + glob_of(
                p@.skip(i + 1),
            ));
            i = i + 1;
        } else if p[i] == '^' || p[i] == '$' {
            i = i + 1;
        } else {
            out.push(p[i]);
            assert(before + (seq![p@[i as int]] + glob_of(rest.drop_first())) =~= out@ + glob_of(
                p@.skip(i + 1),
            ));
            i = i + 1;
        }
    }
    assert(p@.skip(p@.len() as int) =~= Seq::<char>::empty());
    assert(out@ + Seq::<char>::empty() =~= out@);
    out
}

/// Appends `s` quoted and escaped.
fn push_escaped_string(out: &mut Vec<char>, s: &String)
    ensures
        final(out)@ == old(out)@ + escaped(s@),
{
    let c = chars_of(s.as_str());
    push_escaped(out, c.as_slice());
}

/// The SQL condition for a field operation.
pub fn field_op_to_sql(name: &String, op: &FieldOp) -> (r: Vec<char>)
    ensures
        r@ == op_sql(name@, op@),
{
    let mut out: Vec<char> = Vec::new();
    push_str(&mut out, name.as_str());
    let ghost n = out@;
    assert(n =~= name@);
    match op {
        FieldOp::Substring(v) => {
            push_str(&mut out, " LIKE '%");
            push_escaped_string(&mut out, v);
            push_str(&mut out, "%'");
        },
        FieldOp::Exact(v) => {
            push_str(&mut out, " = '");
            push_escaped_string(&mut out, v);
            push_str(&mut out, "'");
        },
        FieldOp::Regex(p) => {
            push_str(&mut out, " GLOB '");
            let pc = chars_of(p.as_str());
            let g = regex_to_glob(pc.as_slice());
            push_escaped(&mut out, g.as_slice());
            push_str(&mut out, "'");
        },
        FieldOp::Range { start, end } => {
            match (start, end) {
                (Some(a), Some(b)) => {
                    push_str(&mut out, " BETWEEN '");
                    push_escaped_string(&mut out, a);
                    push_str(&mut out, "' AND '");
                    push_escaped_string(&mut out, b);
                    push_str(&mut out, "'");
                },
                (Some(a), None) => {
                    push_str(&mut out, " >= '");
                    push_escaped_string(&mut out, a);
                    push_str(&mut out, "'");
                },
                (None, Some(b)) => {
                    push_str(&mut out, " <= '");
                    push_escaped_string(&mut out, b);
                    push_str(&mut out, "'");
                },
                (None, None) => {
                    push_str(&mut out, " IS NOT NULL");
                },
            }
        },
        FieldOp::RelativeDate(d) => {
            push_str(&mut out, " >= '");
            push_escaped_string(&mut out, d);
            push_str(&mut out, "'");
        },
    }
    out
}

/// The SQL condition for a filter term.
fn condition_to_sql(t: &QueryTerm) -> (r: Vec<char>)
    requires
        !(t@ is Sort),
    ensures
        r@ == condition_of(t@),
{
    let mut out: Vec<char> = Vec::new();
    match t {
        QueryTerm::FullText(x) => {
            push_str(&mut out, "id IN (SELECT rowid FROM items_fts WHERE items_fts MATCH '");
            push_escaped_string(&mut out, x);
            push_str(&mut out, "')");
        },
        QueryTerm::Field { negated, name, op } => {
            let c = field_op_to_sql(name, op);
            if *negated {
                push_str(&mut out, "NOT (");
                push_all(&mut out, c.as_slice());
                push_str(&mut out, ")");
            } else {
                push_all(&mut out, c.as_slice());
            }
        },
        QueryTerm::Sort { .. } => {},
    }
    out
}

/// Appends `part` to the joined parts `acc`, with `sep` before it unless `acc` is empty.
fn push_joined(acc: &mut Vec<char>, count: usize, part: &[char], sep: &str, Ghost(parts): Ghost<
    Seq<Seq<char>>,
>)
    requires
        old(acc)@ == joined(parts, sep@),
        count == parts.len(),
    ensures
        final(acc)@ == joined(parts.push(part@), sep@),
{
    assert(parts.push(part@).drop_last() =~= parts);
    if count > 0 {
        push_str(acc, sep);
        push_all(acc, part);
    } else {
        push_all(acc, part);
        assert(acc@ =~= part@);
    }
}

/// The SQL statement for a list of terms.
pub fn terms_to_sql(terms: &[QueryTerm]) -> (r: Result<String, Error>)
    ensures
        r matches Ok(s) && s@ == sql_of(terms_view(terms@)),
{
    let ghost ts = terms_view(terms@);
    let mut wh: Vec<char> = Vec::new();
    let mut n_cond: usize = 0;
    let mut ob: Vec<char> = Vec::new();
    let mut n_keys: usize = 0;
    let mut i: usize = 0;
    while i < terms.len()
        invariant
            0 <= i <= terms@.len(),
            ts == terms_view(terms@),
            wh@ == joined(conditions(ts.take(i as int)), " AND "@),
            n_cond == conditions(ts.take(i as int)).len(),
            ob@ == joined(sort_keys(ts.take(i as int)), ", "@),
            n_keys == sort_keys(ts.take(i as int)).len(),
            n_cond <= i,
            n_keys <= i,
        decreases terms@.len() - i,
    {
        let ghost pre = ts.take(i as int);
        assert(ts.take(i + 1).drop_last() =~= pre);
        assert(ts.take(i + 1).last() == terms@[i as int]@);
        match &terms[i] {
            QueryTerm::Sort { field, ascending } => {
                let mut key = chars_of(field.as_str());
                if *ascending {
                    push_str(&mut key, " ASC");
                } else {
                    push_str(&mut key, " DESC");
                }
                push_joined(&mut ob, n_keys, key.as_slice(), ", ", Ghost(sort_keys(pre)));
                n_keys = n_keys + 1;
            },
            _ => {
                let c = condition_to_sql(&terms[i]);
                push_joined(&mut wh, n_cond, c.as_slice(), " AND ", Ghost(conditions(pre)));
                n_cond = n_cond + 1;
            },
        }
        i = i + 1;
    }
    assert(ts.take(terms@.len() as int) =~= ts);
    let mut out: Vec<char> = Vec::new();
    push_str(&mut out, "SELECT * FROM items ");
    let ghost head = out@;
    if n_cond > 0 {
        push_str(&mut out, "WHERE ");
        push_all(&mut out, wh.as_slice());
        assert(out@ =~= head + ("WHERE "@ + wh@));
    } else {
        assert(out@ =~= head + Seq::<char>::empty());
    }
    let ghost mid = out@;
    push_str(&mut out, " ");
    let ghost mid2 = out@;
    if n_keys > 0 {
        push_str(&mut out, "ORDER BY ");
        push_all(&mut out, ob.as_slice());
        assert(out@ =~= mid2 + ("ORDER BY "@ + ob@));
    } else {
        push_str(&mut out, "ORDER BY artist, album, disc, track");
    }
    Ok(string_of(out.as_slice()))
}

/// A sort directive of a compiled query.
#[derive(Debug, Clone, PartialEq, Eq)]
pub struct SortDirective {
    pub field: String,
    pub ascending: bool,
}

/// A compiled query: filter clauses, all of which must hold, and sort directives, in the order
/// of the query.
#[derive(Debug, Clone, PartialEq, Eq)]
pub struct CompiledQuery {
    pub clauses: Vec<QueryTerm>,
    pub sort: Vec<SortDirective>,
}

/// The filter terms, in order.
pub open spec fn filter_terms(ts: Seq<TermModel>) -> Seq<TermModel>
    decreases ts.len(),
{
    if ts.len() == 0 {
        seq![]
    } else {
        match ts.last() {
            TermModel::Sort { .. } => filter_terms(ts.drop_last()),
            t => filter_terms(ts.drop_last()).push(t),
        }
    }
}

/// The sort terms as field and direction, in order.
pub open spec fn sort_terms(ts: Seq<TermModel>) -> Seq<(Seq<char>, bool)>
    decreases ts.len(),
{
    if ts.len() == 0 {
        seq![]
    } else {
        match ts.last() {
            TermModel::Sort { field, ascending } => sort_terms(ts.drop_last()).push((field, ascending)),
            _ => sort_terms(ts.drop_last()),
        }
    }
}

/// The order where a query asks for none: artist, album, disc and track, ascending.
pub open spec fn default_sort() -> Seq<(Seq<char>, bool)> {
    seq![("artist"@, true), ("album"@, true), ("disc"@, true), ("track"@, true)]
}

pub open spec fn directives_view(ds: Seq<SortDirective>) -> Seq<(Seq<char>, bool)> {
    ds.map_values(|d: SortDirective| (d.field@, d.ascending))
}

/// `c` holds the filter terms of `ts` and their sort terms, or the default order where there
/// is none.
pub open spec fn compiled_from(c: CompiledQuery, ts: Seq<TermModel>) -> bool {
    &&& terms_view(c.clauses@) == filter_terms(ts)
    &&& directives_view(c.sort@) == if sort_terms(ts).len() == 0 {
        default_sort()
    } else {
        sort_terms(ts)
    }
}

/// Splits terms into filter clauses and sort directives, keeping their order; the default
/// order where no term asks for one.
pub fn compile_terms(terms: Vec<QueryTerm>) -> (r: CompiledQuery)
    ensures
        compiled_from(r, terms_view(terms@)),
{
    let ghost all = terms@;
    let mut clauses: Vec<QueryTerm> = Vec::new();
    let mut sort: Vec<SortDirective> = Vec::new();
    for t in it: terms
        invariant
            it.seq() == all,
            terms_view(clauses@) == filter_terms(terms_view(all.take(it.index() as int))),
            directives_view(sort@) == sort_terms(terms_view(all.take(it.index() as int))),
    {
        let ghost i = it.index();
        assert(terms_view(all.take(i + 1)).drop_last() =~= terms_view(all.take(i)));
        assert(terms_view(all.take(i + 1)).last() == t@);
        let ghost cs = clauses@;
        let ghost ss = sort@;
        match t {
            QueryTerm::Sort { field, ascending } => {
                sort.push(SortDirective { field, ascending });
                assert(directives_view(sort@) =~= directives_view(ss).push((field@, ascending)));
            },
            other => {
                clauses.push(other);
                assert(terms_view(clauses@) =~= terms_view(cs).push(other@));
            },
        }
    }
    assert(all.take(all.len() as int) =~= all);
    if sort.len() == 0 {
        let defaults = ["artist", "album", "disc", "track"];
        let mut k: usize = 0;
        while k < 4
            invariant
                0 <= k <= 4,
                defaults@ == seq!["artist", "album", "disc", "track"],
                directives_view(sort@) == default_sort().take(k as int),
            decreases 4 - k,
        {
            let name: &str = defaults[k];
            sort.push(SortDirective { field: name.to_owned(), ascending: true });
            let ghost prev = default_sort().take(k as int);
            assert(default_sort().take(k + 1) =~= prev.push(default_sort()[k as int]));
            assert(directives_view(sort@) =~= default_sort().take(k + 1));
            k = k + 1;
        }
        assert(default_sort().take(4) =~= default_sort());
    }
    CompiledQuery { clauses, sort }
}

/// The filter clauses and sort directives of a query; a relative date is counted back from
/// today.
pub fn compile(query: &str) -> (r: Result<CompiledQuery, Error>)
    ensures
        r matches Ok(c) && exists|today: int| compiled_from(c, #[trigger] query_terms(query@, today)),
{
    let terms = parse(query)?;
    Ok(compile_terms(terms))
}

/// The SQL statement for a query; a relative date is counted back from today.
pub fn to_sql(query: &str) -> (r: Result<String, Error>)
    ensures
        r matches Ok(s) && exists|today: int| s@ == sql_of(query_terms(query@, today)),
{
    let terms = parse(query)?;
    terms_to_sql(terms.as_slice())
}

} // verus!
