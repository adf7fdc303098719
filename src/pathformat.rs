//! Path templates: `$field` stands for a field of the record and `%func{arg}` for a function
//! of its expanded argument.
//!
//! Variables: albumartist, artist, album, year, track, title, disc, genre.
//! Functions: upper, lower, title, left, right, if.
use vstd::prelude::*;

use crate::query::{digit_value, is_digit, is_first, joined, words, words_after};
use crate::text::{
    chars_of, copy_range, is_word, lemma_trim_len, lower_of, lowercase, push_all, push_str,
    space, string_of, trim, trim_chars,
};
use crate::units::{decimal_text, push_decimal, push_two_digits, two_digits};
use crate::{effective_artist, Error, Item};

verus! {

/// What `char::is_alphanumeric` says of a character.
pub uninterp spec fn is_alnum(c: char) -> bool;

/// What `str::to_uppercase` makes of a string.
pub uninterp spec fn upper_of(s: Seq<char>) -> Seq<char>;

/// What `char::to_uppercase` makes of a character.
pub uninterp spec fn upper_char_of(c: char) -> Seq<char>;

/// What `char::to_lowercase` makes of a character.
pub uninterp spec fn lower_char_of(c: char) -> Seq<char>;

/// Relies on `char::is_alphanumeric`.
#[verifier::external_body]
fn alphanumeric(c: char) -> (r: bool)
    ensures
        r == is_alnum(c),
{
    c.is_alphanumeric()
}

/// Relies on `str::to_uppercase`: the result depends on the characters alone.
#[verifier::external_body]
fn uppercase(s: &str) -> (r: String)
    ensures
        r@ == upper_of(s@),
{
    s.to_uppercase()
}

/// Relies on `char::to_uppercase`: the characters that one character becomes.
#[verifier::external_body]
fn upper_char(c: char) -> (r: String)
    ensures
        r@ == upper_char_of(c),
{
    c.to_uppercase().collect()
}

/// Relies on `char::to_lowercase`: the characters that one character becomes.
#[verifier::external_body]
fn lower_char(c: char) -> (r: String)
    ensures
        r@ == lower_char_of(c),
{
    c.to_lowercase().collect()
}

pub open spec fn is_ident_char(c: char) -> bool {
    is_alnum(c) || c == '_'
}

/// The length of the identifier that `s` starts with.
pub open spec fn ident_len(s: Seq<char>) -> nat
    decreases s.len(),
{
    if s.len() > 0 && is_ident_char(s[0]) {
        1 + ident_len(s.drop_first())
    } else {
        0
    }
}

/// The argument of a function, after its opening brace, up to the brace that closes it at
/// `depth`, and how many characters it takes with that brace; all of `s` where none closes it.
pub open spec fn block(s: Seq<char>, depth: int) -> (Seq<char>, nat)
    decreases s.len(),
{
    if s.len() == 0 {
        (seq![], 0)
    } else {
        let c = s[0];
        let d = if c == '{' {
            depth + 1
        } else if c == '}' {
            depth - 1
        } else {
            depth
        };
        if c == '}' && d == 0 {
            (seq![], 1)
        } else {
            let rest = block(s.drop_first(), d);
            (seq![c] + rest.0, rest.1 + 1)
        }
    }
}

/// The characters that a path must not hold.
pub open spec fn is_reserved(c: char) -> bool {
    c == '/' || c == '\\' || c == ':' || c == '*' || c == '?' || c == '"' || c == '<' || c == '>'
        || c == '|' || c == '\0'
}

/// A value made safe for a path: reserved characters become `_`, and surrounding white space
/// goes.
pub open spec fn sanitized(s: Seq<char>) -> Seq<char> {
    trim(s.map_values(|c: char| if is_reserved(c) { '_' } else { c }))
}

/// `p` put before a result, where it is one.
pub open spec fn prepend(p: Seq<char>, r: Result<Seq<char>, Seq<char>>) -> Result<Seq<char>, Seq<char>> {
    match r {
        Ok(x) => Ok(p + x),
        Err(e) => Err(e),
    }
}

/// A whole number in decimal, with a `-` where it is negative.
pub open spec fn signed_text(y: int) -> Seq<char> {
    if y < 0 {
        seq!['-'] + decimal_text((-y) as nat)
    } else {
        decimal_text(y as nat)
    }
}

/// The value of a template variable for a record.
pub open spec fn variable_of(name: Seq<char>, item: Item) -> Result<Seq<char>, Seq<char>> {
    if name == "title"@ {
        Ok(item.title@)
    } else if name == "artist"@ {
        Ok(item.artist@)
    } else if name == "album"@ {
        Ok(item.album@)
    } else if name == "albumartist"@ {
        Ok(effective_artist(item))
    } else if name == "genre"@ {
        Ok(
            match item.genre {
                Some(g) => g@,
                None => seq![],
            },
        )
    } else if name == "year"@ {
        Ok(
            match item.year {
                Some(y) => signed_text(y as int),
                None => seq![],
            },
        )
    } else if name == "track"@ {
        Ok(
            match item.track {
                Some(t) => two_digits(t as nat),
                None => seq![],
            },
        )
    } else if name == "disc"@ {
        Ok(
            match item.disc {
                Some(d) => decimal_text(d as nat),
                None => seq![],
            },
        )
    } else {
        Err("Unknown variable: "@ + name)
    }
}

/// The digits `d` read after the value `acc`, as `usize` parsing reads them: 1 for a character
/// that is no digit, 2 for a value too large.
pub open spec fn digits_usize(d: Seq<char>, acc: nat) -> Result<nat, int>
    decreases d.len(),
{
    if d.len() == 0 {
        Ok(acc)
    } else if !is_digit(d[0]) {
        Err(1)
    } else if acc * 10 + digit_value(d[0]) > usize::MAX {
        Err(2)
    } else {
        digits_usize(d.drop_first(), (acc * 10 + digit_value(d[0])) as nat)
    }
}

/// `s` read as a `usize`, as `str::parse` reads it: an optional `+` and digits; 0 for an empty
/// string, 1 for an invalid digit, 2 for a value too large.
pub open spec fn usize_of(s: Seq<char>) -> Result<nat, int> {
    if s.len() == 0 {
        Err(0)
    } else if (s[0] == '+' || s[0] == '-') && s.len() == 1 {
        Err(1)
    } else if s[0] == '+' {
        digits_usize(s.drop_first(), 0)
    } else {
        digits_usize(s, 0)
    }
}

/// The message of a number that did not parse.
pub open spec fn parse_error_text(kind: int) -> Seq<char> {
    if kind == 0 {
        "cannot parse integer from empty string"@
    } else if kind == 1 {
        "invalid digit found in string"@
    } else {
        "number too large to fit in target type"@
    }
}

/// The characters after the first one of a word, each in lower case.
pub open spec fn lower_chars(s: Seq<char>) -> Seq<char>
    decreases s.len(),
{
    if s.len() == 0 {
        seq![]
    } else {
        lower_chars(s.drop_last()) + lower_char_of(s.last())
    }
}

/// A word with its first character in upper case and the others in lower case.
pub open spec fn title_word(w: Seq<char>) -> Seq<char> {
    if w.len() == 0 {
        seq![]
    } else {
        upper_char_of(w[0]) + lower_chars(w.drop_first())
    }
}

/// The words of `s` in title case, joined by single spaces.
pub open spec fn title_case(s: Seq<char>) -> Seq<char> {
    joined(words(s).map_values(|w: Seq<char>| title_word(w)), " "@)
}

proof fn lemma_ident_len(s: Seq<char>)
    ensures
        ident_len(s) <= s.len(),
    decreases s.len(),
{
    if s.len() > 0 {
        lemma_ident_len(s.drop_first());
    }
}

proof fn lemma_block_len(s: Seq<char>, depth: int)
    ensures
        block(s, depth).1 <= s.len(),
        block(s, depth).0.len() <= block(s, depth).1,
    decreases s.len(),
{
    if s.len() > 0 {
        let c = s[0];
        let d = if c == '{' {
            depth + 1
        } else if c == '}' {
            depth - 1
        } else {
            depth
        };
        lemma_block_len(s.drop_first(), d);
    }
}

/// The position of the first comma, where there is one.
pub open spec fn comma(s: Seq<char>) -> int {
    choose|k: int| is_first(s, ',', k)
}

pub open spec fn has_comma(s: Seq<char>) -> bool {
    exists|k: int| is_first(s, ',', k)
}

/// `left` and `right`: the first or last `n` characters of the expanded rest, after the first
/// comma.
pub open spec fn cut_of(func_left: bool, arg: Seq<char>, item: Item) -> Result<Seq<char>, Seq<char>>
    decreases arg.len(), 1int
        when has_comma(arg)
        via cut_of_decreases
{
    let c = comma(arg);
    match usize_of(arg.take(c)) {
        Err(k) => Err("Invalid number: "@ + parse_error_text(k)),
        Ok(n) => match format_of(trim(arg.skip(c + 1)), item) {
            Err(e) => Err(e),
            Ok(v) => if func_left {
                Ok(v.take(if n <= v.len() { n as int } else { v.len() as int }))
            } else {
                Ok(v.skip(if n <= v.len() { v.len() - n } else { 0 }))
            },
        },
    }
}

/// `if`: the second part where the first expands to something, else the third, if any.
pub open spec fn choice_of(arg: Seq<char>, item: Item) -> Result<Seq<char>, Seq<char>>
    decreases arg.len(), 1int
        when has_comma(arg)
        via choice_of_decreases
{
    let c = comma(arg);
    let after = arg.skip(c + 1);
    let three = has_comma(after);
    let second = if three {
        after.take(comma(after))
    } else {
        after
    };
    match format_of(trim(arg.take(c)), item) {
        Err(e) => Err(e),
        Ok(cond) => if cond.len() > 0 {
            format_of(trim(second), item)
        } else if three {
            format_of(trim(after.skip(comma(after) + 1)), item)
        } else {
            Ok(seq![])
        },
    }
}

/// A template function applied to its argument.
pub open spec fn apply_of(func: Seq<char>, arg: Seq<char>, item: Item) -> Result<Seq<char>, Seq<char>>
    decreases arg.len(), 2int,
{
    match format_of(arg, item) {
        Err(e) => Err(e),
        Ok(expanded) => if func == "upper"@ {
            Ok(upper_of(expanded))
        } else if func == "lower"@ {
            Ok(lower_of(expanded))
        } else if func == "title"@ {
            Ok(title_case(expanded))
        } else if func == "left"@ || func == "right"@ {
            if has_comma(arg) {
                cut_of(func == "left"@, arg, item)
            } else {
                Ok(expanded)
            }
        } else if func == "if"@ {
            if has_comma(arg) {
                choice_of(arg, item)
            } else {
                Ok(expanded)
            }
        } else {
            Err("Unknown function: "@ + func)
        },
    }
}

/// A template expanded for a record, or the message of its first error.
pub open spec fn format_of(t: Seq<char>, item: Item) -> Result<Seq<char>, Seq<char>>
    decreases t.len(), 0int
        via format_of_decreases
{
    if t.len() == 0 {
        Ok(seq![])
    } else if t[0] == '$' {
        let n = ident_len(t.drop_first()) as int;
        match variable_of(t.subrange(1, 1 + n), item) {
            Err(e) => Err(e),
            Ok(v) => prepend(sanitized(v), format_of(t.skip(1 + n), item)),
        }
    } else if t[0] == '%' {
        let n = ident_len(t.drop_first()) as int;
        let func = t.subrange(1, 1 + n);
        if 1 + n < t.len() && t[1 + n] == '{' {
            let b = block(t.skip(2 + n), 1);
            match apply_of(func, b.0, item) {
                Err(e) => Err(e),
                Ok(v) => prepend(sanitized(v), format_of(t.skip(2 + n + b.1 as int), item)),
            }
        } else {
            Err("Expected '{' after %"@ + func)
        }
    } else {
        prepend(seq![t[0]], format_of(t.drop_first(), item))
    }
}

#[via_fn]
proof fn cut_of_decreases(func_left: bool, arg: Seq<char>, item: Item) {
    if has_comma(arg) {
        let c = comma(arg);
        assert(is_first(arg, ',', c));
        lemma_trim_len(arg.skip(c + 1));
    }
}

#[via_fn]
proof fn choice_of_decreases(arg: Seq<char>, item: Item) {
    if has_comma(arg) {
        let c = comma(arg);
        assert(is_first(arg, ',', c));
        let after = arg.skip(c + 1);
        lemma_trim_len(arg.take(c));
        lemma_trim_len(after);
        if has_comma(after) {
            let c2 = comma(after);
            assert(is_first(after, ',', c2));
            lemma_trim_len(after.take(c2));
            lemma_trim_len(after.skip(c2 + 1));
        }
    }
}

#[via_fn]
proof fn format_of_decreases(t: Seq<char>, item: Item) {
    if t.len() > 0 {
        lemma_ident_len(t.drop_first());
        let n = ident_len(t.drop_first()) as int;
        if t[0] == '%' && 1 + n < t.len() && t[1 + n] == '{' {
            lemma_block_len(t.skip(2 + n), 1);
        }
    }
}

/// A result of the library's own with its strings seen as character sequences.
pub open spec fn result_chars(r: Result<Vec<char>, Vec<char>>) -> Result<Seq<char>, Seq<char>> {
    match r {
        Ok(v) => Ok(v@),
        Err(e) => Err(e@),
    }
}

proof fn lemma_prepend(a: Seq<char>, b: Seq<char>, r: Result<Seq<char>, Seq<char>>)
    ensures
        prepend(a, prepend(b, r)) == prepend(a + b, r),
{
    match r {
        Ok(x) => assert(a + (b + x) =~= (a + b) + x),
        Err(_) => {},
    }
}

proof fn lemma_first_unique(s: Seq<char>, c: char, k: int)
    requires
        is_first(s, c, k),
    ensures
        forall|q: int| is_first(s, c, q) ==> q == k,
{
    assert forall|q: int| is_first(s, c, q) implies q == k by {
        if q < k {
            assert(s[q] == c);
        } else if q > k {
            assert(s[k] == c);
        }
    }
}

/// The first position of `c` in `s`.
fn find_char(s: &[char], c: char) -> (r: Option<usize>)
    ensures
        match r {
            Some(k) => k < s@.len() && is_first(s@, c, k as int) && only_first_at(s@, c, k as int),
            None => !exists|k: int| is_first(s@, c, k),
        },
{
    let mut k: usize = 0;
    while k < s.len()
        invariant
            k <= s@.len(),
            forall|j: int| 0 <= j < k ==> s@[j] != c,
        decreases s@.len() - k,
    {
        if s[k] == c {
            proof {
                lemma_first_unique(s@, c, k as int);
            }
            return Some(k);
        }
        k = k + 1;
    }
    None
}

/// No position but `k` is the first `c` in `s`.
pub open spec fn only_first_at(s: Seq<char>, c: char, k: int) -> bool {
    forall|q: int| is_first(s, c, q) ==> q == k
}

/// The end of the identifier that starts at `from`.
fn collect_identifier(t: &[char], from: usize) -> (r: usize)
    requires
        from <= t@.len(),
    ensures
        r == from + ident_len(t@.skip(from as int)),
        r <= t@.len(),
{
    let mut i: usize = from;
    while i < t.len() && (alphanumeric(t[i]) || t[i] == '_')
        invariant
            from <= i <= t@.len(),
            ident_len(t@.skip(from as int)) == (i - from) + ident_len(t@.skip(i as int)),
        decreases t@.len() - i,
    {
        assert(t@.skip(i as int).drop_first() =~= t@.skip(i + 1));
        i = i + 1;
    }
    i
}

/// The argument that starts at `from`, after an opening brace, and how many characters it
/// takes with its closing brace.
fn collect_until_close(t: &[char], from: usize) -> (r: (Vec<char>, usize))
    requires
        from <= t@.len(),
    ensures
        r.0@ == block(t@.skip(from as int), 1).0,
        r.1 == block(t@.skip(from as int), 1).1,
{
    let mut content: Vec<char> = Vec::new();
    let mut depth: u128 = 1;
    let mut i: usize = from;
    assert(content@ + block(t@.skip(from as int), 1).0 =~= block(t@.skip(from as int), 1).0);
    while i < t.len()
        invariant
            from <= i <= t@.len(),
            1 <= depth <= (i - from) + 1,
            block(t@.skip(from as int), 1).0 == content@ + block(t@.skip(i as int), depth as int).0,
            block(t@.skip(from as int), 1).1 == (i - from) + block(t@.skip(i as int), depth as int).1,
        decreases t@.len() - i,
    {
        let c = t[i];
        let ghost rest = t@.skip(i as int);
        assert(rest.drop_first() =~= t@.skip(i + 1));
        assert(rest[0] == c);
        if c == '}' && depth == 1 {
            assert(content@ + seq![] =~= content@);
            return (content, i - from + 1);
        }
        let ghost old_depth = depth;
        if c == '{' {
            depth = depth + 1;
        } else if c == '}' {
            depth = depth - 1;
        }
        let ghost before = content@;
        content.push(c);
        proof {
            let sub = block(t@.skip(i + 1), depth as int);
            assert(block(rest, old_depth as int) == (seq![c] + sub.0, sub.1 + 1));
            assert(before + (seq![c] + sub.0) =~= content@ + sub.0);
        }
        i = i + 1;
    }
    assert(t@.skip(i as int) =~= Seq::<char>::empty());
    assert(content@ + Seq::<char>::empty() =~= content@);
    (content, i - from)
}

/// A value made safe for a path: reserved characters become `_`, and surrounding white space
/// goes.
pub fn sanitize(s: &[char]) -> (r: Vec<char>)
    ensures
        r@ == sanitized(s@),
{
    let mut mapped: Vec<char> = Vec::new();
    let mut i: usize = 0;
    while i < s.len()
        invariant
            i <= s@.len(),
            mapped@ == s@.take(i as int).map_values(|c: char| if is_reserved(c) { '_' } else { c }),
        decreases s@.len() - i,
    {
        let c = s[i];
        let m = if c == '/' || c == '\\' || c == ':' || c == '*' || c == '?' || c == '"' || c == '<'
            || c == '>' || c == '|' || c == '\0' {
            '_'
        } else {
            c
        };
        mapped.push(m);
        i = i + 1;
        assert(mapped@ =~= s@.take(i as int).map_values(|c: char| if is_reserved(c) { '_' } else { c }));
    }
    assert(s@.take(i as int) =~= s@);
    trim_chars(mapped.as_slice())
}

/// The value of a template variable for a record.
fn get_variable(name: &[char], item: &Item) -> (r: Result<Vec<char>, Vec<char>>)
    ensures
        result_chars(r) == variable_of(name@, *item),
{
    if is_word(name, "title") {
        Ok(chars_of(item.title.as_str()))
    } else if is_word(name, "artist") {
        Ok(chars_of(item.artist.as_str()))
    } else if is_word(name, "album") {
        Ok(chars_of(item.album.as_str()))
    } else if is_word(name, "albumartist") {
        Ok(chars_of(item.effective_albumartist()))
    } else if is_word(name, "genre") {
        match &item.genre {
            Some(g) => Ok(chars_of(g.as_str())),
            None => Ok(Vec::new()),
        }
    } else if is_word(name, "year") {
        let mut out: Vec<char> = Vec::new();
        match item.year {
            Some(y) => {
                if y < 0 {
                    out.push('-');
                    push_decimal(&mut out, (-(y as i64)) as u128);
                    assert(out@ =~= signed_text(y as int));
                } else {
                    push_decimal(&mut out, y as u128);
                    assert(out@ =~= signed_text(y as int));
                }
            },
            None => {},
        }
        Ok(out)
    } else if is_word(name, "track") {
        let mut out: Vec<char> = Vec::new();
        match item.track {
            Some(t) => {
                push_two_digits(&mut out, t as u64);
                assert(out@ =~= two_digits(t as nat));
            },
            None => {},
        }
        Ok(out)
    } else if is_word(name, "disc") {
        let mut out: Vec<char> = Vec::new();
        match item.disc {
            Some(d) => {
                push_decimal(&mut out, d as u128);
                assert(out@ =~= decimal_text(d as nat));
            },
            None => {},
        }
        Ok(out)
    } else {
        let mut msg: Vec<char> = Vec::new();
        push_str(&mut msg, "Unknown variable: ");
        push_all(&mut msg, name);
        Err(msg)
    }
}

/// `s` read as a `usize` as `str::parse` reads it, or the kind of error.
fn parse_usize(s: &[char]) -> (r: Result<usize, u8>)
    ensures
        match r {
            Ok(v) => usize_of(s@) == Ok::<nat, int>(v as nat),
            Err(k) => usize_of(s@) == Err::<nat, int>(k as int),
        },
{
    let n = s.len();
    if n == 0 {
        return Err(0);
    }
    if (s[0] == '+' || s[0] == '-') && n == 1 {
        return Err(1);
    }
    let from: usize = if s[0] == '+' {
        1
    } else {
        0
    };
    assert(s@.skip(1) =~= s@.drop_first());
    assert(s@.skip(0) =~= s@);
    let mut acc: usize = 0;
    let mut i: usize = from;
    while i < n
        invariant
            from <= i <= n == s@.len(),
            usize_of(s@) == digits_usize(s@.skip(i as int), acc as nat),
        decreases n - i,
    {
        let c = s[i];
        let ghost rest = s@.skip(i as int);
        assert(rest.drop_first() =~= s@.skip(i + 1));
        assert(rest[0] == c);
        if c < '0' || c > '9' {
            return Err(1);
        }
        let x: u128 = acc as u128 * 10 + (c as u32 - '0' as u32) as u128;
        if x > usize::MAX as u128 {
            return Err(2);
        }
        acc = x as usize;
        i = i + 1;
    }
    assert(s@.skip(n as int) =~= Seq::<char>::empty());
    Ok(acc)
}

/// The message of a number that did not parse.
fn parse_error_message(kind: u8) -> (r: Vec<char>)
    ensures
        r@ == parse_error_text(kind as int),
{
    if kind == 0 {
        chars_of("cannot parse integer from empty string")
    } else if kind == 1 {
        chars_of("invalid digit found in string")
    } else {
        chars_of("number too large to fit in target type")
    }
}

/// A word with its first character in upper case and the others in lower case.
fn title_word_chars(w: &[char]) -> (r: Vec<char>)
    ensures
        r@ == title_word(w@),
{
    let mut out: Vec<char> = Vec::new();
    if w.len() == 0 {
        return out;
    }
    let first = upper_char(w[0]);
    push_str(&mut out, first.as_str());
    let ghost head = out@;
    let mut i: usize = 1;
    assert(w@.subrange(1, 1) =~= Seq::<char>::empty());
    assert(out@ =~= head + lower_chars(w@.subrange(1, 1)));
    while i < w.len()
        invariant
            1 <= i <= w@.len(),
            out@ == head + lower_chars(w@.subrange(1, i as int)),
        decreases w@.len() - i,
    {
        let l = lower_char(w[i]);
        let ghost before = out@;
        push_str(&mut out, l.as_str());
        assert(w@.subrange(1, i + 1).drop_last() =~= w@.subrange(1, i as int));
        assert(out@ =~= head + lower_chars(w@.subrange(1, i + 1)));
        i = i + 1;
    }
    assert(w@.subrange(1, w@.len() as int) =~= w@.drop_first());
    out
}

/// Appends the next word in title case, after a space unless it is the first.
fn push_title_word(out: &mut Vec<char>, count: usize, w: &[char], Ghost(done): Ghost<Seq<Seq<char>>>)
    requires
        old(out)@ == joined(done.map_values(|x: Seq<char>| title_word(x)), " "@),
        count == done.len(),
    ensures
        final(out)@ == joined(done.push(w@).map_values(|x: Seq<char>| title_word(x)), " "@),
{
    let tw = title_word_chars(w);
    if count > 0 {
        push_str(out, " ");
    }
    push_all(out, tw.as_slice());
    proof {
        let f = |x: Seq<char>| title_word(x);
        assert(done.push(w@).map_values(f) =~= done.map_values(f).push(title_word(w@)));
        assert(done.map_values(f).push(title_word(w@)).drop_last() =~= done.map_values(f));
        if count == 0 {
            assert(out@ =~= title_word(w@));
        }
    }
}

/// The words of `s` in title case, joined by single spaces.
pub fn to_title_case(s: &[char]) -> (r: Vec<char>)
    ensures
        r@ == title_case(s@),
{
    let n = s.len();
    let mut out: Vec<char> = Vec::new();
    let mut count: usize = 0;
    let mut i: usize = 0;
    let mut start: usize = 0;
    let ghost mut done: Seq<Seq<char>> = seq![];
    assert(s@.skip(0) =~= s@);
    assert(s@.subrange(0, 0) =~= Seq::<char>::empty());
    while i < n
        invariant
            n == s@.len(),
            0 <= start <= i <= n,
            words(s@) == done + words_after(s@.skip(i as int), s@.subrange(start as int, i as int)),
            out@ == joined(done.map_values(|w: Seq<char>| title_word(w)), " "@),
            count == done.len(),
            count <= i,
        decreases n - i,
    {
        let ghost rest = s@.skip(i as int);
        let ghost cur = s@.subrange(start as int, i as int);
        assert(rest.drop_first() =~= s@.skip(i + 1));
        assert(rest[0] == s@[i as int]);
        if space(s[i]) {
            if start < i {
                let w = copy_range(s, start, i);
                push_title_word(&mut out, count, w.as_slice(), Ghost(done));
                proof {
                    assert(done + (seq![cur] + words_after(s@.skip(i + 1), seq![])) =~= done.push(cur)
                        + words_after(s@.skip(i + 1), seq![]));
                    done = done.push(cur);
                }
                count = count + 1;
            } else {
                assert(cur =~= s@.subrange(i + 1, i + 1));
            }
            i = i + 1;
            start = i;
            assert(s@.subrange(start as int, i as int) =~= Seq::<char>::empty());
        } else {
            assert(cur.push(s@[i as int]) =~= s@.subrange(start as int, i + 1));
            i = i + 1;
        }
    }
    let ghost cur = s@.subrange(start as int, n as int);
    assert(s@.skip(n as int) =~= Seq::<char>::empty());
    if start < n {
        let w = copy_range(s, start, n);
        push_title_word(&mut out, count, w.as_slice(), Ghost(done));
        assert(done + seq![cur] =~= done.push(cur));
    } else {
        assert(done + seq![] =~= done);
    }
    out
}

/// A template function applied to its argument.
fn apply_function(func: &[char], arg: &[char], item: &Item) -> (r: Result<Vec<char>, Vec<char>>)
    ensures
        result_chars(r) == apply_of(func@, arg@, *item),
    decreases arg@.len(), 2int,
{
    let expanded = match format_chars(arg, item) {
        Err(e) => return Err(e),
        Ok(x) => x,
    };
    if is_word(func, "upper") {
        let u = uppercase(string_of(expanded.as_slice()).as_str());
        return Ok(chars_of(u.as_str()));
    }
    if is_word(func, "lower") {
        let l = lowercase(string_of(expanded.as_slice()).as_str());
        return Ok(chars_of(l.as_str()));
    }
    if is_word(func, "title") {
        return Ok(to_title_case(expanded.as_slice()));
    }
    let left = is_word(func, "left");
    if left || is_word(func, "right") {
        let found = find_char(arg, ',');
        match found {
            None => return Ok(expanded),
            Some(c) => {
                proof {
                    assert(is_first(arg@, ',', c as int));
                    assert(has_comma(arg@));
                    assert(is_first(arg@, ',', comma(arg@)));
                }
                let num = copy_range(arg, 0, c);
                assert(num@ == arg@.take(c as int));
                match parse_usize(num.as_slice()) {
                    Err(k) => {
                        let mut msg: Vec<char> = Vec::new();
                        push_str(&mut msg, "Invalid number: ");
                        let t = parse_error_message(k);
                        push_all(&mut msg, t.as_slice());
                        return Err(msg);
                    },
                    Ok(n) => {
                        assert(c < arg.len());
                        let rest = copy_range(arg, c + 1, arg.len());
                        assert(rest@ == arg@.skip(c + 1));
                        let tr = trim_chars(rest.as_slice());
                        proof {
                            lemma_trim_len(rest@);
                        }
                        let v = match format_chars(tr.as_slice(), item) {
                            Err(e) => return Err(e),
                            Ok(v) => v,
                        };
                        let len = v.len();
                        let keep = if n <= len {
                            n
                        } else {
                            len
                        };
                        if left {
                            return Ok(copy_range(v.as_slice(), 0, keep));
                        } else {
                            let out = copy_range(v.as_slice(), len - keep, len);
                            assert(out@ =~= v@.skip(len - keep));
                            return Ok(out);
                        }
                    },
                }
            },
        }
    }
    if is_word(func, "if") {
        let found = find_char(arg, ',');
        match found {
            None => return Ok(expanded),
            Some(c) => {
                proof {
                    assert(is_first(arg@, ',', c as int));
                    assert(has_comma(arg@));
                    assert(is_first(arg@, ',', comma(arg@)));
                }
                let first = copy_range(arg, 0, c);
                assert(c < arg.len());
                let after = copy_range(arg, c + 1, arg.len());
                assert(after@ == arg@.skip(c + 1));
                let found2 = find_char(after.as_slice(), ',');
                let (second, third) = match found2 {
                    Some(c2) => {
                        proof {
                            assert(has_comma(after@));
                            assert(is_first(after@, ',', comma(after@)));
                        }
                        (copy_range(after.as_slice(), 0, c2), Some(copy_range(after.as_slice(), c2 + 1, after.len())))
                    },
                    None => (copy_range(after.as_slice(), 0, after.len()), None),
                };
                assert(found2 is None ==> second@ =~= after@);
                let t0 = trim_chars(first.as_slice());
                proof {
                    lemma_trim_len(first@);
                    lemma_trim_len(second@);
                }
                let cond = match format_chars(t0.as_slice(), item) {
                    Err(e) => return Err(e),
                    Ok(x) => x,
                };
                if cond.len() > 0 {
                    let t1 = trim_chars(second.as_slice());
                    return format_chars(t1.as_slice(), item);
                }
                match third {
                    Some(p) => {
                        proof {
                            lemma_trim_len(p@);
                        }
                        let t2 = trim_chars(p.as_slice());
                        return format_chars(t2.as_slice(), item);
                    },
                    None => return Ok(Vec::new()),
                }
            },
        }
    }
    let mut msg: Vec<char> = Vec::new();
    push_str(&mut msg, "Unknown function: ");
    push_all(&mut msg, func);
    Err(msg)
}

/// A template expanded for a record, or the message of its first error.
fn format_chars(t: &[char], item: &Item) -> (r: Result<Vec<char>, Vec<char>>)
    ensures
        result_chars(r) == format_of(t@, *item),
    decreases t@.len(), 0int,
{
    let mut out: Vec<char> = Vec::new();
    let mut i: usize = 0;
    assert(t@.skip(0) =~= t@);
    assert(prepend(seq![], format_of(t@, *item)) == format_of(t@, *item)) by {
        match format_of(t@, *item) {
            Ok(x) => assert(Seq::<char>::empty() + x =~= x),
            Err(_) => {},
        }
    }
    while i < t.len()
        invariant
            i <= t@.len(),
            format_of(t@, *item) == prepend(out@, format_of(t@.skip(i as int), *item)),
        decreases t@.len() - i,
    {
        let ghost rest = t@.skip(i as int);
        assert(rest.drop_first() =~= t@.skip(i + 1));
        assert(rest[0] == t@[i as int]);
        let c = t[i];
        if c == '$' {
            let e = collect_identifier(t, i + 1);
            let ghost n = ident_len(rest.drop_first()) as int;
            let name = copy_range(t, i + 1, e);
            assert(name@ =~= rest.subrange(1, 1 + n));
            match get_variable(name.as_slice(), item) {
                Err(m) => return Err(m),
                Ok(v) => {
                    let sv = sanitize(v.as_slice());
                    let ghost before = out@;
                    push_all(&mut out, sv.as_slice());
                    proof {
                        assert(rest.skip(1 + n) =~= t@.skip(e as int));
                        lemma_prepend(before, sv@, format_of(t@.skip(e as int), *item));
                    }
                    i = e;
                },
            }
        } else if c == '%' {
            let e = collect_identifier(t, i + 1);
            let ghost n = ident_len(rest.drop_first()) as int;
            let func = copy_range(t, i + 1, e);
            assert(func@ =~= rest.subrange(1, 1 + n));
            if e < t.len() && t[e] == '{' {
                let (arg, used) = collect_until_close(t, e + 1);
                proof {
                    assert(rest.skip(2 + n) =~= t@.skip(e + 1));
                    lemma_block_len(t@.skip(e + 1), 1);
                }
                match apply_function(func.as_slice(), arg.as_slice(), item) {
                    Err(m) => return Err(m),
                    Ok(v) => {
                        let sv = sanitize(v.as_slice());
                        let ghost before = out@;
                        push_all(&mut out, sv.as_slice());
                        proof {
                            assert(rest.skip(2 + n + used) =~= t@.skip(e + 1 + used));
                            lemma_prepend(before, sv@, format_of(t@.skip(e + 1 + used), *item));
                        }
                        i = e + 1 + used;
                    },
                }
            } else {
                let mut msg: Vec<char> = Vec::new();
                push_str(&mut msg, "Expected '{' after %");
                push_all(&mut msg, func.as_slice());
                return Err(msg);
            }
        } else {
            let ghost before = out@;
            out.push(c);
            proof {
                lemma_prepend(before, seq![c], format_of(t@.skip(i + 1), *item));
                assert(before + seq![c] =~= out@);
            }
            i = i + 1;
        }
    }
    assert(t@.skip(i as int) =~= Seq::<char>::empty());
    assert(out@ + Seq::<char>::empty() =~= out@);
    Ok(out)
}

/// Expands a path template for a record: `$field` becomes the field's value and
/// `%func{arg}` the function's value, each made safe for a path.
pub fn format_path(template: &str, item: &Item) -> (r: Result<String, Error>)
    ensures
        match r {
            Ok(s) => format_of(template@, *item) == Ok::<Seq<char>, Seq<char>>(s@),
            Err(Error::PathFormat(m)) => format_of(template@, *item) == Err::<Seq<char>, Seq<char>>(m@),
            Err(_) => false,
        },
{
    let t = chars_of(template);
    match format_chars(t.as_slice(), item) {
        Ok(v) => Ok(string_of(v.as_slice())),
        Err(m) => Err(Error::PathFormat(string_of(m.as_slice()))),
    }
}

} // verus!
