//! The persisted form of the collection: a JSON object
//! `{"jobs":[{"company":...,"position":...,"status":...,"interview_dates":[...]},...]}`
//! with dates as `"YYYY-MM-DD"` strings.
//!
//! `to_json` produces the canonical compact text given by `json_of`; the
//! parser behind `from_json` also accepts whitespace between tokens and the
//! usual JSON string escapes, so files written with pretty printing load as
//! well. Parsing demands of a date list what the store keeps invariant —
//! strictly ascending, valid dates — so a parsed collection is well formed,
//! and parsing the canonical text of a well-formed collection gives the
//! collection back.

use vstd::prelude::*;
use crate::date::{Date, date_chars, date_lt, digit_char, spec_parse_date, push_date_chars};
use crate::store::{ApplicationStore, JobApplication, JobView, sorted_dates, job_wf, store_wf};
use crate::text::{str_to_chars, chars_to_string};

verus! {

// ---------------------------------------------------------------------------
// hexadecimal digits, for control-character escapes
// ---------------------------------------------------------------------------
pub open spec fn hex_digit(n: int) -> char {
    if n < 10 {
        digit_char(n)
    } else if n == 10 {
        'a'
    } else if n == 11 {
        'b'
    } else if n == 12 {
        'c'
    } else if n == 13 {
        'd'
    } else if n == 14 {
        'e'
    } else if n == 15 {
        'f'
    } else {
        '?'
    }
}

pub open spec fn hex_val(c: char) -> int {
    if c == 'a' || c == 'A' {
        10
    } else if c == 'b' || c == 'B' {
        11
    } else if c == 'c' || c == 'C' {
        12
    } else if c == 'd' || c == 'D' {
        13
    } else if c == 'e' || c == 'E' {
        14
    } else if c == 'f' || c == 'F' {
        15
    } else {
        crate::date::digit_val(c)
    }
}

fn to_hex_char(n: u32) -> (c: char)
    requires
        n <= 15,
    ensures
        c == hex_digit(n as int),
{
    match n {
        0 => '0',
        1 => '1',
        2 => '2',
        3 => '3',
        4 => '4',
        5 => '5',
        6 => '6',
        7 => '7',
        8 => '8',
        9 => '9',
        10 => 'a',
        11 => 'b',
        12 => 'c',
        13 => 'd',
        14 => 'e',
        _ => 'f',
    }
}

fn hex_value(c: char) -> (r: Option<u32>)
    ensures
        match r {
            Some(v) => hex_val(c) == v as int,
            None => hex_val(c) == -1,
        },
{
    match c {
        '0' => Some(0),
        '1' => Some(1),
        '2' => Some(2),
        '3' => Some(3),
        '4' => Some(4),
        '5' => Some(5),
        '6' => Some(6),
        '7' => Some(7),
        '8' => Some(8),
        '9' => Some(9),
        'a' | 'A' => Some(10),
        'b' | 'B' => Some(11),
        'c' | 'C' => Some(12),
        'd' | 'D' => Some(13),
        'e' | 'E' => Some(14),
        'f' | 'F' => Some(15),
        _ => None,
    }
}

// ---------------------------------------------------------------------------
// string escaping
// ---------------------------------------------------------------------------
/// The escape of one character: quote and backslash get a backslash, control
/// characters become `\u00XX`, and every other character stands as itself.
pub open spec fn esc1(c: char) -> Seq<char> {
    if c == '"' {
        seq!['\\', '"']
    } else if c == '\\' {
        seq!['\\', '\\']
    } else if (c as int) < 0x20 {
        seq!['\\', 'u', '0', '0', hex_digit(c as int / 16), hex_digit(c as int % 16)]
    } else {
        seq![c]
    }
}

/// The escaped form of a whole text.
pub open spec fn esc(s: Seq<char>) -> Seq<char>
    decreases s.len(),
{
    if s.len() == 0 {
        Seq::empty()
    } else {
        esc1(s[0]) + esc(s.drop_first())
    }
}

fn push_esc1(out: &mut Vec<char>, c: char)
    ensures
        final(out)@ == old(out)@ + esc1(c),
{
    if c == '"' {
        out.push('\\');
        out.push('"');
    } else if c == '\\' {
        out.push('\\');
        out.push('\\');
    } else if (c as u32) < 0x20 {
        let n = c as u32;
        out.push('\\');
        out.push('u');
        out.push('0');
        out.push('0');
        out.push(to_hex_char(n / 16));
        out.push(to_hex_char(n % 16));
    } else {
        out.push(c);
    }
    proof {
        assert(out@ =~= old(out)@ + esc1(c));
    }
}

fn push_escaped_from(out: &mut Vec<char>, s: &Vec<char>, i: usize)
    requires
        i <= s.len(),
    ensures
        final(out)@ == old(out)@ + esc(s@.skip(i as int)),
    decreases s.len() - i,
{
    if i < s.len() {
        let c = s[i];
        push_esc1(out, c);
        push_escaped_from(out, s, i + 1);
        proof {
            assert(s@.skip(i as int).drop_first() =~= s@.skip(i as int + 1));
            assert(s@.skip(i as int)[0] == s@[i as int]);
            assert(out@ =~= old(out)@ + esc(s@.skip(i as int)));
        }
    } else {
        proof {
            assert(s@.skip(i as int) =~= Seq::<char>::empty());
            assert(out@ =~= old(out)@ + esc(s@.skip(i as int)));
        }
    }
}

// ---------------------------------------------------------------------------
// the canonical text of a collection
// ---------------------------------------------------------------------------
pub open spec fn key_company() -> Seq<char> {
    seq!['"', 'c', 'o', 'm', 'p', 'a', 'n', 'y', '"']
}

pub open spec fn key_position() -> Seq<char> {
    seq!['"', 'p', 'o', 's', 'i', 't', 'i', 'o', 'n', '"']
}

pub open spec fn key_status() -> Seq<char> {
    seq!['"', 's', 't', 'a', 't', 'u', 's', '"']
}

pub open spec fn key_dates() -> Seq<char> {
    seq!['"', 'i', 'n', 't', 'e', 'r', 'v', 'i', 'e', 'w', '_', 'd', 'a', 't', 'e', 's', '"']
}

pub open spec fn key_jobs() -> Seq<char> {
    seq!['"', 'j', 'o', 'b', 's', '"']
}

/// A text in quotes, escaped.
pub open spec fn quoted(s: Seq<char>) -> Seq<char> {
    seq!['"'] + esc(s) + seq!['"']
}

/// A date in quotes. Date text never needs escaping.
pub open spec fn date_text(d: Date) -> Seq<char> {
    seq!['"'] + date_chars(d) + seq!['"']
}

pub open spec fn dates_rest_text(ds: Seq<Date>) -> Seq<char>
    decreases ds.len(),
{
    if ds.len() == 0 {
        Seq::empty()
    } else {
        seq![','] + date_text(ds[0]) + dates_rest_text(ds.drop_first())
    }
}

pub open spec fn dates_list_text(ds: Seq<Date>) -> Seq<char> {
    if ds.len() == 0 {
        Seq::empty()
    } else {
        date_text(ds[0]) + dates_rest_text(ds.drop_first())
    }
}

pub open spec fn job_text(j: JobView) -> Seq<char> {
    seq!['{'] + key_company() + seq![':'] + quoted(j.company) + seq![','] + key_position()
        + seq![':'] + quoted(j.position) + seq![','] + key_status() + seq![':'] + quoted(j.status)
        + seq![','] + key_dates() + seq![':'] + seq!['['] + dates_list_text(j.dates) + seq![']']
        + seq!['}']
}

pub open spec fn jobs_rest_text(v: Seq<JobView>) -> Seq<char>
    decreases v.len(),
{
    if v.len() == 0 {
        Seq::empty()
    } else {
        seq![','] + job_text(v[0]) + jobs_rest_text(v.drop_first())
    }
}

pub open spec fn jobs_list_text(v: Seq<JobView>) -> Seq<char> {
    if v.len() == 0 {
        Seq::empty()
    } else {
        job_text(v[0]) + jobs_rest_text(v.drop_first())
    }
}

/// The canonical serialized text of a collection.
pub open spec fn json_of(v: Seq<JobView>) -> Seq<char> {
    seq!['{'] + key_jobs() + seq![':'] + seq!['['] + jobs_list_text(v) + seq![']'] + seq!['}']
}

// ---------------------------------------------------------------------------
// the serializer
// ---------------------------------------------------------------------------
fn push_token(out: &mut Vec<char>, t: &Vec<char>)
    ensures
        final(out)@ == old(out)@ + t@,
{
    let ghost base = out@;
    let mut k: usize = 0;
    while k < t.len()
        invariant
            k <= t.len(),
            out@ == base + t@.take(k as int),
        decreases t.len() - k,
    {
        out.push(t[k]);
        proof {
            assert(out@ =~= base + t@.take(k as int + 1));
        }
        k += 1;
    }
    proof {
        assert(out@ =~= base + t@);
    }
}

fn tok_company() -> (r: Vec<char>)
    ensures
        r@ == key_company(),
{
    let r = vec!['"', 'c', 'o', 'm', 'p', 'a', 'n', 'y', '"'];
    proof {
        assert(r@ =~= key_company());
    }
    r
}

fn tok_position() -> (r: Vec<char>)
    ensures
        r@ == key_position(),
{
    let r = vec!['"', 'p', 'o', 's', 'i', 't', 'i', 'o', 'n', '"'];
    proof {
        assert(r@ =~= key_position());
    }
    r
}

fn tok_status() -> (r: Vec<char>)
    ensures
        r@ == key_status(),
{
    let r = vec!['"', 's', 't', 'a', 't', 'u', 's', '"'];
    proof {
        assert(r@ =~= key_status());
    }
    r
}

fn tok_dates() -> (r: Vec<char>)
    ensures
        r@ == key_dates(),
{
    let r = vec![
        '"',
        'i',
        'n',
        't',
        'e',
        'r',
        'v',
        'i',
        'e',
        'w',
        '_',
        'd',
        'a',
        't',
        'e',
        's',
        '"',
    ];
    proof {
        assert(r@ =~= key_dates());
    }
    r
}

fn tok_jobs() -> (r: Vec<char>)
    ensures
        r@ == key_jobs(),
{
    let r = vec!['"', 'j', 'o', 'b', 's', '"'];
    proof {
        assert(r@ =~= key_jobs());
    }
    r
}

fn push_quoted(out: &mut Vec<char>, s: &str)
    ensures
        final(out)@ == old(out)@ + quoted(s@),
{
    out.push('"');
    let cs = str_to_chars(s);
    push_escaped_from(out, &cs, 0);
    out.push('"');
    proof {
        assert(cs@.skip(0) =~= s@);
        assert(out@ =~= old(out)@ + quoted(s@));
    }
}

fn push_date_text(out: &mut Vec<char>, d: Date)
    requires
        d.valid(),
    ensures
        final(out)@ == old(out)@ + date_text(d),
{
    out.push('"');
    push_date_chars(out, d);
    out.push('"');
    proof {
        assert(out@ =~= old(out)@ + date_text(d));
    }
}

fn push_dates_rest(out: &mut Vec<char>, ds: &Vec<Date>, i: usize)
    requires
        i <= ds.len(),
        forall|q: int| 0 <= q < ds@.len() ==> (#[trigger] ds@[q]).valid(),
    ensures
        final(out)@ == old(out)@ + dates_rest_text(ds@.skip(i as int)),
    decreases ds.len() - i,
{
    if i < ds.len() {
        out.push(',');
        push_date_text(out, ds[i]);
        push_dates_rest(out, ds, i + 1);
        proof {
            assert(ds@.skip(i as int).drop_first() =~= ds@.skip(i as int + 1));
            assert(ds@.skip(i as int)[0] == ds@[i as int]);
            assert(out@ =~= old(out)@ + dates_rest_text(ds@.skip(i as int)));
        }
    } else {
        proof {
            assert(ds@.skip(i as int) =~= Seq::<Date>::empty());
            assert(out@ =~= old(out)@ + dates_rest_text(ds@.skip(i as int)));
        }
    }
}

fn push_dates_list(out: &mut Vec<char>, ds: &Vec<Date>)
    requires
        forall|q: int| 0 <= q < ds@.len() ==> (#[trigger] ds@[q]).valid(),
    ensures
        final(out)@ == old(out)@ + dates_list_text(ds@),
{
    if ds.len() > 0 {
        push_date_text(out, ds[0]);
        push_dates_rest(out, ds, 1);
        proof {
            assert(ds@.skip(1) =~= ds@.drop_first());
            assert(out@ =~= old(out)@ + dates_list_text(ds@));
        }
    } else {
        proof {
            assert(out@ =~= old(out)@ + dates_list_text(ds@));
        }
    }
}

#[verifier::rlimit(80)]
fn push_job(out: &mut Vec<char>, j: &JobApplication)
    requires
        job_wf(j@),
    ensures
        final(out)@ == old(out)@ + job_text(j@),
{
    out.push('{');
    let t = tok_company();
    push_token(out, &t);
    out.push(':');
    push_quoted(out, j.company.as_str());
    out.push(',');
    let t = tok_position();
    push_token(out, &t);
    out.push(':');
    push_quoted(out, j.position.as_str());
    out.push(',');
    let t = tok_status();
    push_token(out, &t);
    out.push(':');
    push_quoted(out, j.status.as_str());
    out.push(',');
    let t = tok_dates();
    push_token(out, &t);
    out.push(':');
    out.push('[');
    push_dates_list(out, &j.interview_dates);
    out.push(']');
    out.push('}');
    proof {
        assert(out@ =~= old(out)@ + job_text(j@));
    }
}

fn push_jobs_rest(out: &mut Vec<char>, store: &ApplicationStore, i: usize)
    requires
        i <= store@.len(),
        store_wf(store@),
    ensures
        final(out)@ == old(out)@ + jobs_rest_text(store@.skip(i as int)),
    decreases store@.len() - i,
{
    proof {
        assert(store@.len() == store.jobs@.len());
    }
    if i < store.jobs.len() {
        out.push(',');
        proof {
            assert(store@[i as int] == store.jobs@[i as int]@);
            assert(job_wf(store@[i as int]));
        }
        push_job(out, &store.jobs[i]);
        push_jobs_rest(out, store, i + 1);
        proof {
            assert(store@.skip(i as int).drop_first() =~= store@.skip(i as int + 1));
            assert(store@.skip(i as int)[0] == store@[i as int]);
            assert(out@ =~= old(out)@ + jobs_rest_text(store@.skip(i as int)));
        }
    } else {
        proof {
            assert(store@.skip(i as int) =~= Seq::<JobView>::empty());
            assert(out@ =~= old(out)@ + jobs_rest_text(store@.skip(i as int)));
        }
    }
}

impl ApplicationStore {
    /// The canonical serialized text of this collection.
    pub fn to_json(&self) -> (r: String)
        requires
            store_wf(self@),
        ensures
            r@ == json_of(self@),
    {
        let mut out: Vec<char> = Vec::new();
        out.push('{');
        let t = tok_jobs();
        push_token(&mut out, &t);
        out.push(':');
        out.push('[');
        if self.jobs.len() > 0 {
            proof {
                assert(self@[0] == self.jobs@[0]@);
                assert(job_wf(self@[0]));
            }
            push_job(&mut out, &self.jobs[0]);
            push_jobs_rest(&mut out, self, 1);
            proof {
                assert(self@.skip(1) =~= self@.drop_first());
                assert(self@.len() == self.jobs@.len());
            }
        }
        out.push(']');
        out.push('}');
        proof {
            assert(out@ =~= json_of(self@));
        }
        chars_to_string(&out)
    }
}

} // verus!

verus! {

// ---------------------------------------------------------------------------
// the parser: specification
// ---------------------------------------------------------------------------
pub open spec fn is_ws(c: char) -> bool {
    c == ' ' || c == '\n' || c == '\t' || c == '\r'
}

/// The first position at or after `i` that does not hold whitespace.
pub open spec fn skip_ws(s: Seq<char>, i: int) -> int
    decreases s.len() - i,
{
    if 0 <= i < s.len() && is_ws(s[i]) {
        skip_ws(s, i + 1)
    } else {
        i
    }
}

/// Position just past `t` if `s` carries `t` verbatim at `i`.
pub open spec fn expect(s: Seq<char>, i: int, t: Seq<char>) -> Option<int> {
    if 0 <= i && i + t.len() <= s.len() && s.subrange(i, i + t.len() as int) == t {
        Some(i + t.len() as int)
    } else {
        None
    }
}

pub open spec fn is_simple_escape(e: char) -> bool {
    e == '"' || e == '\\' || e == '/' || e == 'b' || e == 'f' || e == 'n' || e == 'r' || e == 't'
}

/// The character a one-letter escape stands for.
pub open spec fn esc_code(e: char) -> char {
    if e == 'b' {
        '\u{8}'
    } else if e == 'f' {
        '\u{c}'
    } else if e == 'n' {
        '\n'
    } else if e == 'r' {
        '\r'
    } else if e == 't' {
        '\t'
    } else {
        e
    }
}

/// The body of a JSON string, read from just after the opening quote to the
/// closing quote: raw characters, one-letter escapes, and `\u00XX` escapes.
/// Yields the unescaped text and the position just past the closing quote.
pub open spec fn p_strbody(s: Seq<char>, i: int) -> Option<(Seq<char>, int)>
    decreases s.len() - i,
{
    if !(0 <= i < s.len()) {
        None
    } else if s[i] == '"' {
        Some((Seq::empty(), i + 1))
    } else if s[i] == '\\' {
        if i + 2 <= s.len() && is_simple_escape(s[i + 1]) {
            match p_strbody(s, i + 2) {
                Some(p) => Some((seq![esc_code(s[i + 1])] + p.0, p.1)),
                None => None,
            }
        } else if i + 6 <= s.len() && s[i + 1] == 'u' && s[i + 2] == '0' && s[i + 3] == '0'
            && hex_val(s[i + 4]) >= 0 && hex_val(s[i + 5]) >= 0 {
            match p_strbody(s, i + 6) {
                Some(p) => Some(
                    (seq![((16 * hex_val(s[i + 4]) + hex_val(s[i + 5])) as u8) as char] + p.0, p.1),
                ),
                None => None,
            }
        } else {
            None
        }
    } else if (s[i] as int) < 0x20 {
        None
    } else {
        match p_strbody(s, i + 1) {
            Some(p) => Some((seq![s[i]] + p.0, p.1)),
            None => None,
        }
    }
}

/// A quoted string starting at `i`.
pub open spec fn p_string(s: Seq<char>, i: int) -> Option<(Seq<char>, int)> {
    if 0 <= i < s.len() && s[i] == '"' {
        p_strbody(s, i + 1)
    } else {
        None
    }
}

/// A quoted date, whose unescaped content must be valid `YYYY-MM-DD` text.
pub open spec fn p_date_elem(s: Seq<char>, i: int) -> Option<(Date, int)> {
    match p_string(s, i) {
        Some(p) => match spec_parse_date(p.0) {
            Some(d) => Some((d, p.1)),
            None => None,
        },
        None => None,
    }
}

/// The elements of a date array after its first date: either the closing
/// bracket, or a comma and a further date that must come strictly after the
/// previous one — the array must be strictly ascending to parse.
pub open spec fn p_dates_rest(s: Seq<char>, i: int, last: Date, acc: Seq<Date>) -> Option<
    (Seq<Date>, int),
>
    decreases s.len() - i,
{
    let j = skip_ws(s, i);
    if 0 <= j < s.len() && s[j] == ']' {
        Some((acc, j + 1))
    } else if 0 <= j < s.len() && s[j] == ',' {
        let j2 = skip_ws(s, j + 1);
        match p_date_elem(s, j2) {
            Some(p) => if i < p.1 <= s.len() && date_lt(last, p.0) {
                p_dates_rest(s, p.1, p.0, acc.push(p.0))
            } else {
                None
            },
            None => None,
        }
    } else {
        None
    }
}

/// A date array, read from just after its opening bracket.
pub open spec fn p_dates(s: Seq<char>, i: int) -> Option<(Seq<Date>, int)> {
    let j = skip_ws(s, i);
    if 0 <= j < s.len() && s[j] == ']' {
        Some((Seq::empty(), j + 1))
    } else {
        match p_date_elem(s, j) {
            Some(p) => if i < p.1 <= s.len() {
                p_dates_rest(s, p.1, p.0, seq![p.0])
            } else {
                None
            },
            None => None,
        }
    }
}

/// A key and its colon, whitespace allowed around both; yields the position
/// where the value starts.
pub open spec fn p_key_colon(s: Seq<char>, i: int, key: Seq<char>) -> Option<int> {
    match expect(s, skip_ws(s, i), key) {
        Some(j) => match expect(s, skip_ws(s, j), seq![':']) {
            Some(k) => Some(skip_ws(s, k)),
            None => None,
        },
        None => None,
    }
}

pub open spec fn p_comma(s: Seq<char>, i: int) -> Option<int> {
    expect(s, skip_ws(s, i), seq![','])
}

/// One record object: the four keys in their fixed order, then the closing
/// brace.
pub open spec fn p_job(s: Seq<char>, i: int) -> Option<(JobView, int)> {
    match expect(s, i, seq!['{']) {
        Some(a) => match p_key_colon(s, a, key_company()) {
            Some(b) => match p_string(s, b) {
                Some(company) => match p_comma(s, company.1) {
                    Some(c2) => match p_key_colon(s, c2, key_position()) {
                        Some(e) => match p_string(s, e) {
                            Some(position) => match p_comma(s, position.1) {
                                Some(f2) => match p_key_colon(s, f2, key_status()) {
                                    Some(g) => match p_string(s, g) {
                                        Some(status) => match p_comma(s, status.1) {
                                            Some(h2) => match p_key_colon(s, h2, key_dates()) {
                                                Some(m) => match expect(s, m, seq!['[']) {
                                                    Some(m2) => match p_dates(s, m2) {
                                                        Some(ds) => match expect(
                                                            s,
                                                            skip_ws(s, ds.1),
                                                            seq!['}'],
                                                        ) {
                                                            Some(end) => Some(
                                                                (
                                                                    JobView {
                                                                        company: company.0,
                                                                        position: position.0,
                                                                        status: status.0,
                                                                        dates: ds.0,
                                                                    },
                                                                    end,
                                                                ),
                                                            ),
                                                            None => None,
                                                        },
                                                        None => None,
                                                    },
                                                    None => None,
                                                },
                                                None => None,
                                            },
                                            None => None,
                                        },
                                        None => None,
                                    },
                                    None => None,
                                },
                                None => None,
                            },
                            None => None,
                        },
                        None => None,
                    },
                    None => None,
                },
                None => None,
            },
            None => None,
        },
        None => None,
    }
}

/// The records of the job array after its first record.
pub open spec fn p_jobs_rest(s: Seq<char>, i: int, acc: Seq<JobView>) -> Option<
    (Seq<JobView>, int),
>
    decreases s.len() - i,
{
    let j = skip_ws(s, i);
    if 0 <= j < s.len() && s[j] == ']' {
        Some((acc, j + 1))
    } else if 0 <= j < s.len() && s[j] == ',' {
        let j2 = skip_ws(s, j + 1);
        match p_job(s, j2) {
            Some(p) => if i < p.1 <= s.len() {
                p_jobs_rest(s, p.1, acc.push(p.0))
            } else {
                None
            },
            None => None,
        }
    } else {
        None
    }
}

/// The job array, read from just after its opening bracket.
pub open spec fn p_jobs(s: Seq<char>, i: int) -> Option<(Seq<JobView>, int)> {
    let j = skip_ws(s, i);
    if 0 <= j < s.len() && s[j] == ']' {
        Some((Seq::empty(), j + 1))
    } else {
        match p_job(s, j) {
            Some(p) => if i < p.1 <= s.len() {
                p_jobs_rest(s, p.1, seq![p.0])
            } else {
                None
            },
            None => None,
        }
    }
}

/// What loading persisted text means: the whole text is one object holding
/// the key `jobs` and an array of records, nothing more.
pub open spec fn spec_parse(s: Seq<char>) -> Option<Seq<JobView>> {
    match expect(s, skip_ws(s, 0), seq!['{']) {
        Some(a) => match p_key_colon(s, a, key_jobs()) {
            Some(b) => match expect(s, b, seq!['[']) {
                Some(c) => match p_jobs(s, c) {
                    Some(v) => match expect(s, skip_ws(s, v.1), seq!['}']) {
                        Some(k) => if skip_ws(s, k) == s.len() {
                            Some(v.0)
                        } else {
                            None
                        },
                        None => None,
                    },
                    None => None,
                },
                None => None,
            },
            None => None,
        },
        None => None,
    }
}

} // verus!

verus! {

// ---------------------------------------------------------------------------
// the parser: executable form, equal to the specification
// ---------------------------------------------------------------------------
/// A character's code point is unchanged by the cast through `u32`.
proof fn lemma_char_code(c: char)
    ensures
        (c as u32) as int == c as int,
{
}

fn ws_char(c: char) -> (r: bool)
    ensures
        r == is_ws(c),
{
    c == ' ' || c == '\n' || c == '\t' || c == '\r'
}

fn e_skip_ws(s: &Vec<char>, i: usize) -> (r: usize)
    requires
        i <= s.len(),
    ensures
        r as int == skip_ws(s@, i as int),
        i <= r <= s.len(),
    decreases s.len() - i,
{
    if i < s.len() && ws_char(s[i]) {
        e_skip_ws(s, i + 1)
    } else {
        i
    }
}

fn e_expect(s: &Vec<char>, i: usize, t: &Vec<char>) -> (r: Option<usize>)
    requires
        i <= s.len(),
    ensures
        match r {
            Some(j) => expect(s@, i as int, t@) == Some(j as int) && i <= j <= s.len(),
            None => expect(s@, i as int, t@) is None,
        },
{
    if s.len() - i < t.len() {
        return None;
    }
    let mut k: usize = 0;
    while k < t.len()
        invariant
            i + t.len() <= s.len(),
            k <= t.len(),
            forall|q: int| 0 <= q < k ==> s@[i + q] == t@[q],
        decreases t.len() - k,
    {
        if s[i + k] != t[k] {
            proof {
                if s@.subrange(i as int, i + t@.len() as int) == t@ {
                    assert(s@.subrange(i as int, i + t@.len() as int)[k as int] == s@[i + k]);
                }
            }
            return None;
        }
        k += 1;
    }
    proof {
        assert(s@.subrange(i as int, i + t@.len() as int) =~= t@);
    }
    Some(i + t.len())
}

fn e_expect_char(s: &Vec<char>, i: usize, c: char) -> (r: Option<usize>)
    requires
        i <= s.len(),
    ensures
        match r {
            Some(j) => expect(s@, i as int, seq![c]) == Some(j as int) && i < j <= s.len(),
            None => expect(s@, i as int, seq![c]) is None,
        },
{
    if i < s.len() && s[i] == c {
        proof {
            assert(s@.subrange(i as int, i as int + 1) =~= seq![c]);
        }
        Some(i + 1)
    } else {
        proof {
            if 0 <= i as int && i as int + 1 <= s@.len() && s@.subrange(i as int, i as int + 1)
                == seq![c] {
                assert(s@.subrange(i as int, i as int + 1)[0] == s@[i as int]);
            }
        }
        None
    }
}

fn simple_escape(e: char) -> (r: bool)
    ensures
        r == is_simple_escape(e),
{
    e == '"' || e == '\\' || e == '/' || e == 'b' || e == 'f' || e == 'n' || e == 'r' || e == 't'
}

fn esc_code_char(e: char) -> (c: char)
    ensures
        c == esc_code(e),
{
    match e {
        'b' => '\u{8}',
        'f' => '\u{c}',
        'n' => '\n',
        'r' => '\r',
        't' => '\t',
        _ => e,
    }
}

fn e_strbody(s: &Vec<char>, i: usize) -> (r: Option<(Vec<char>, usize)>)
    requires
        i <= s.len(),
    ensures
        match r {
            Some(p) => p_strbody(s@, i as int) == Some((p.0@, p.1 as int)) && i < p.1 <= s.len(),
            None => p_strbody(s@, i as int) is None,
        },
    decreases s.len() - i,
{
    if i >= s.len() {
        proof {
            assert(p_strbody(s@, i as int) is None);
        }
        return None;
    }
    let c = s[i];
    if c == '"' {
        let v: Vec<char> = Vec::new();
        proof {
            assert(v@ =~= Seq::<char>::empty());
            assert(p_strbody(s@, i as int) == Some((v@, i as int + 1)));
        }
        return Some((v, i + 1));
    }
    if c == '\\' {
        if s.len() - i >= 2 && simple_escape(s[i + 1]) {
            let e = s[i + 1];
            match e_strbody(s, i + 2) {
                Some((mut t, j)) => {
                    let mut v: Vec<char> = Vec::new();
                    v.push(esc_code_char(e));
                    let ghost tv = t@;
                    v.append(&mut t);
                    proof {
                        assert(v@ =~= seq![esc_code(s@[i + 1])] + tv);
                        assert(p_strbody(s@, i as int) == Some((v@, j as int)));
                    }
                    Some((v, j))
                },
                None => {
                    proof {
                        assert(p_strbody(s@, i as int) is None);
                    }
                    None
                },
            }
        } else if s.len() - i >= 6 && s[i + 1] == 'u' && s[i + 2] == '0' && s[i + 3] == '0' {
            let h = hex_value(s[i + 4]);
            let l = hex_value(s[i + 5]);
            match (h, l) {
                (Some(hv), Some(lv)) => {
                    match e_strbody(s, i + 6) {
                        Some((mut t, j)) => {
                            let code: u32 = 16 * hv + lv;
                            let ch = (code as u8) as char;
                            proof {
                                assert(code as int == 16 * hex_val(s@[i + 4]) + hex_val(
                                    s@[i + 5],
                                ));
                                assert(ch == ((16 * hex_val(s@[i + 4]) + hex_val(
                                    s@[i + 5],
                                )) as u8) as char);
                            }
                            let mut v: Vec<char> = Vec::new();
                            v.push(ch);
                            let ghost tv = t@;
                            v.append(&mut t);
                            proof {
                                assert(v@ =~= seq![
                                    ((16 * hex_val(s@[i + 4]) + hex_val(s@[i + 5])) as u8) as char,
                                ] + tv);
                                assert(p_strbody(s@, i as int) == Some((v@, j as int)));
                            }
                            Some((v, j))
                        },
                        None => {
                            proof {
                                assert(p_strbody(s@, i as int) is None);
                            }
                            None
                        },
                    }
                },
                _ => {
                    proof {
                        assert(p_strbody(s@, i as int) is None);
                    }
                    None
                },
            }
        } else {
            proof {
                assert(p_strbody(s@, i as int) is None);
            }
            None
        }
    } else if (c as u32) < 0x20 {
        proof {
            lemma_char_code(c);
            assert((c as int) < 0x20);
            assert(p_strbody(s@, i as int) is None);
        }
        None
    } else {
        match e_strbody(s, i + 1) {
            Some((mut t, j)) => {
                let mut v: Vec<char> = Vec::new();
                v.push(c);
                let ghost tv = t@;
                v.append(&mut t);
                proof {
                    lemma_char_code(c);
                    assert(!((c as int) < 0x20));
                    assert(v@ =~= seq![s@[i as int]] + tv);
                    assert(p_strbody(s@, i as int) == Some((v@, j as int)));
                }
                Some((v, j))
            },
            None => {
                proof {
                    lemma_char_code(c);
                    assert(p_strbody(s@, i as int) is None);
                }
                None
            },
        }
    }
}

fn e_string(s: &Vec<char>, i: usize) -> (r: Option<(Vec<char>, usize)>)
    requires
        i <= s.len(),
    ensures
        match r {
            Some(p) => p_string(s@, i as int) == Some((p.0@, p.1 as int)) && i < p.1 <= s.len(),
            None => p_string(s@, i as int) is None,
        },
{
    if i < s.len() && s[i] == '"' {
        e_strbody(s, i + 1)
    } else {
        None
    }
}

fn e_date_elem(s: &Vec<char>, i: usize) -> (r: Option<(Date, usize)>)
    requires
        i <= s.len(),
    ensures
        match r {
            Some(p) => p_date_elem(s@, i as int) == Some((p.0, p.1 as int)) && i < p.1 <= s.len(),
            None => p_date_elem(s@, i as int) is None,
        },
{
    match e_string(s, i) {
        Some((t, j)) => {
            match crate::date::parse_date_chars(&t) {
                Some(d) => Some((d, j)),
                None => None,
            }
        },
        None => None,
    }
}

fn e_dates_rest(s: &Vec<char>, i: usize, last: Date, acc: Vec<Date>) -> (r: Option<
    (Vec<Date>, usize),
>)
    requires
        i <= s.len(),
    ensures
        match r {
            Some(p) => p_dates_rest(s@, i as int, last, acc@) == Some((p.0@, p.1 as int)) && i
                < p.1 <= s.len(),
            None => p_dates_rest(s@, i as int, last, acc@) is None,
        },
    decreases s.len() - i,
{
    let j = e_skip_ws(s, i);
    if j < s.len() && s[j] == ']' {
        return Some((acc, j + 1));
    }
    if j < s.len() && s[j] == ',' {
        let j2 = e_skip_ws(s, j + 1);
        match e_date_elem(s, j2) {
            Some((d, k)) => {
                if last.before(&d) {
                    let mut acc2 = acc;
                    let ghost accv = acc2@;
                    acc2.push(d);
                    proof {
                        assert(acc2@ =~= accv.push(d));
                    }
                    e_dates_rest(s, k, d, acc2)
                } else {
                    None
                }
            },
            None => None,
        }
    } else {
        None
    }
}

fn e_dates(s: &Vec<char>, i: usize) -> (r: Option<(Vec<Date>, usize)>)
    requires
        i <= s.len(),
    ensures
        match r {
            Some(p) => p_dates(s@, i as int) == Some((p.0@, p.1 as int)) && i < p.1 <= s.len(),
            None => p_dates(s@, i as int) is None,
        },
{
    let j = e_skip_ws(s, i);
    if j < s.len() && s[j] == ']' {
        let v: Vec<Date> = Vec::new();
        proof {
            assert(v@ =~= Seq::<Date>::empty());
        }
        return Some((v, j + 1));
    }
    match e_date_elem(s, j) {
        Some((d, k)) => {
            let mut acc: Vec<Date> = Vec::new();
            acc.push(d);
            proof {
                assert(acc@ =~= seq![d]);
            }
            e_dates_rest(s, k, d, acc)
        },
        None => None,
    }
}

fn e_key_colon(s: &Vec<char>, i: usize, key: &Vec<char>) -> (r: Option<usize>)
    requires
        i <= s.len(),
    ensures
        match r {
            Some(j) => p_key_colon(s@, i as int, key@) == Some(j as int) && i < j <= s.len(),
            None => p_key_colon(s@, i as int, key@) is None,
        },
{
    let j = e_skip_ws(s, i);
    match e_expect(s, j, key) {
        Some(k) => {
            let l = e_skip_ws(s, k);
            match e_expect_char(s, l, ':') {
                Some(m) => Some(e_skip_ws(s, m)),
                None => None,
            }
        },
        None => None,
    }
}

fn e_comma(s: &Vec<char>, i: usize) -> (r: Option<usize>)
    requires
        i <= s.len(),
    ensures
        match r {
            Some(j) => p_comma(s@, i as int) == Some(j as int) && i < j <= s.len(),
            None => p_comma(s@, i as int) is None,
        },
{
    let j = e_skip_ws(s, i);
    e_expect_char(s, j, ',')
}

fn e_job(s: &Vec<char>, i: usize) -> (r: Option<(JobApplication, usize)>)
    requires
        i <= s.len(),
    ensures
        match r {
            Some(p) => p_job(s@, i as int) == Some((p.0@, p.1 as int)) && i < p.1 <= s.len(),
            None => p_job(s@, i as int) is None,
        },
{
    let a = match e_expect_char(s, i, '{') {
        Some(a) => a,
        None => {
            return None;
        },
    };
    let key = tok_company();
    let b = match e_key_colon(s, a, &key) {
        Some(b) => b,
        None => {
            return None;
        },
    };
    let (company, c1) = match e_string(s, b) {
        Some(p) => p,
        None => {
            return None;
        },
    };
    let c2 = match e_comma(s, c1) {
        Some(x) => x,
        None => {
            return None;
        },
    };
    let key = tok_position();
    let e = match e_key_colon(s, c2, &key) {
        Some(x) => x,
        None => {
            return None;
        },
    };
    let (position, f1) = match e_string(s, e) {
        Some(p) => p,
        None => {
            return None;
        },
    };
    let f2 = match e_comma(s, f1) {
        Some(x) => x,
        None => {
            return None;
        },
    };
    let key = tok_status();
    let g = match e_key_colon(s, f2, &key) {
        Some(x) => x,
        None => {
            return None;
        },
    };
    let (status, h1) = match e_string(s, g) {
        Some(p) => p,
        None => {
            return None;
        },
    };
    let h2 = match e_comma(s, h1) {
        Some(x) => x,
        None => {
            return None;
        },
    };
    let key = tok_dates();
    let m = match e_key_colon(s, h2, &key) {
        Some(x) => x,
        None => {
            return None;
        },
    };
    let m2 = match e_expect_char(s, m, '[') {
        Some(x) => x,
        None => {
            return None;
        },
    };
    let (dates, d1) = match e_dates(s, m2) {
        Some(p) => p,
        None => {
            return None;
        },
    };
    let d2 = e_skip_ws(s, d1);
    let end = match e_expect_char(s, d2, '}') {
        Some(x) => x,
        None => {
            return None;
        },
    };
    let job = JobApplication {
        company: chars_to_string(&company),
        position: chars_to_string(&position),
        status: chars_to_string(&status),
        interview_dates: dates,
    };
    Some((job, end))
}

} // verus!

verus! {

/// The record views of a vector of records.
pub open spec fn job_views(v: Seq<JobApplication>) -> Seq<JobView> {
    v.map_values(|j: JobApplication| j@)
}

fn e_jobs_rest(s: &Vec<char>, i: usize, acc: Vec<JobApplication>) -> (r: Option<
    (Vec<JobApplication>, usize),
>)
    requires
        i <= s.len(),
    ensures
        match r {
            Some(p) => p_jobs_rest(s@, i as int, job_views(acc@)) == Some(
                (job_views(p.0@), p.1 as int),
            ) && i < p.1 <= s.len(),
            None => p_jobs_rest(s@, i as int, job_views(acc@)) is None,
        },
    decreases s.len() - i,
{
    let j = e_skip_ws(s, i);
    if j < s.len() && s[j] == ']' {
        return Some((acc, j + 1));
    }
    if j < s.len() && s[j] == ',' {
        let j2 = e_skip_ws(s, j + 1);
        match e_job(s, j2) {
            Some((job, k)) => {
                let mut acc2 = acc;
                let ghost accv = acc2@;
                acc2.push(job);
                proof {
                    assert(job_views(acc2@) =~= job_views(accv).push(job@));
                }
                e_jobs_rest(s, k, acc2)
            },
            None => None,
        }
    } else {
        None
    }
}

fn e_jobs(s: &Vec<char>, i: usize) -> (r: Option<(Vec<JobApplication>, usize)>)
    requires
        i <= s.len(),
    ensures
        match r {
            Some(p) => p_jobs(s@, i as int) == Some((job_views(p.0@), p.1 as int)) && i < p.1
                <= s.len(),
            None => p_jobs(s@, i as int) is None,
        },
{
    let j = e_skip_ws(s, i);
    if j < s.len() && s[j] == ']' {
        let v: Vec<JobApplication> = Vec::new();
        proof {
            assert(job_views(v@) =~= Seq::<JobView>::empty());
        }
        return Some((v, j + 1));
    }
    match e_job(s, j) {
        Some((job, k)) => {
            let mut acc: Vec<JobApplication> = Vec::new();
            acc.push(job);
            proof {
                assert(job_views(acc@) =~= seq![job@]);
            }
            e_jobs_rest(s, k, acc)
        },
        None => None,
    }
}

// ---------------------------------------------------------------------------
// a parsed collection is well formed
// ---------------------------------------------------------------------------
proof fn lemma_p_dates_rest_wf(s: Seq<char>, i: int, last: Date, acc: Seq<Date>)
    requires
        sorted_dates(acc),
        forall|q: int| 0 <= q < acc.len() ==> (#[trigger] acc[q]).valid(),
        acc.len() > 0,
        acc.last() == last,
    ensures
        match p_dates_rest(s, i, last, acc) {
            Some(p) => sorted_dates(p.0) && forall|q: int|
                0 <= q < p.0.len() ==> (#[trigger] p.0[q]).valid(),
            None => true,
        },
    decreases s.len() - i,
{
    let j = skip_ws(s, i);
    if 0 <= j < s.len() && s[j] == ']' {
    } else if 0 <= j < s.len() && s[j] == ',' {
        let j2 = skip_ws(s, j + 1);
        match p_date_elem(s, j2) {
            Some(p) => {
                let d = p.0;
                if i < p.1 <= s.len() && date_lt(last, d) {
                    assert(d.valid());
                    let acc2 = acc.push(d);
                    assert(sorted_dates(acc2)) by {
                        assert forall|a: int, b: int| #![trigger acc2[a], acc2[b]]
                            0 <= a < b < acc2.len() implies date_lt(acc2[a], acc2[b]) by {
                            if b < acc.len() {
                                assert(date_lt(acc[a], acc[b]));
                            } else {
                                assert(acc2[b] == d);
                                assert(acc2[a] == acc[a]);
                                if a < acc.len() - 1 {
                                    assert(date_lt(acc[a], acc[acc.len() - 1]));
                                }
                            }
                        }
                    };
                    assert(acc2.last() == d);
                    lemma_p_dates_rest_wf(s, p.1, d, acc2);
                }
            },
            None => {},
        }
    }
}

proof fn lemma_p_dates_wf(s: Seq<char>, i: int)
    ensures
        match p_dates(s, i) {
            Some(p) => sorted_dates(p.0) && forall|q: int|
                0 <= q < p.0.len() ==> (#[trigger] p.0[q]).valid(),
            None => true,
        },
{
    let j = skip_ws(s, i);
    if 0 <= j < s.len() && s[j] == ']' {
        assert(sorted_dates(Seq::<Date>::empty()));
    } else {
        match p_date_elem(s, j) {
            Some(p) => {
                let d = p.0;
                if i < p.1 <= s.len() {
                    assert(d.valid());
                    let acc = seq![d];
                    assert(sorted_dates(acc));
                    assert(acc.last() == d);
                    lemma_p_dates_rest_wf(s, p.1, d, acc);
                }
            },
            None => {},
        }
    }
}

proof fn lemma_p_job_wf(s: Seq<char>, i: int)
    ensures
        match p_job(s, i) {
            Some(p) => job_wf(p.0),
            None => true,
        },
{
    match expect(s, i, seq!['{']) {
        Some(a) => match p_key_colon(s, a, key_company()) {
            Some(b) => match p_string(s, b) {
                Some(company) => match p_comma(s, company.1) {
                    Some(c2) => match p_key_colon(s, c2, key_position()) {
                        Some(e) => match p_string(s, e) {
                            Some(position) => match p_comma(s, position.1) {
                                Some(f2) => match p_key_colon(s, f2, key_status()) {
                                    Some(g) => match p_string(s, g) {
                                        Some(status) => match p_comma(s, status.1) {
                                            Some(h2) => match p_key_colon(s, h2, key_dates()) {
                                                Some(m) => match expect(s, m, seq!['[']) {
                                                    Some(m2) => {
                                                        lemma_p_dates_wf(s, m2);
                                                    },
                                                    None => {},
                                                },
                                                None => {},
                                            },
                                            None => {},
                                        },
                                        None => {},
                                    },
                                    None => {},
                                },
                                None => {},
                            },
                            None => {},
                        },
                        None => {},
                    },
                    None => {},
                },
                None => {},
            },
            None => {},
        },
        None => {},
    }
}

proof fn lemma_p_jobs_rest_wf(s: Seq<char>, i: int, acc: Seq<JobView>)
    requires
        forall|q: int| 0 <= q < acc.len() ==> job_wf(#[trigger] acc[q]),
    ensures
        match p_jobs_rest(s, i, acc) {
            Some(p) => store_wf(p.0),
            None => true,
        },
    decreases s.len() - i,
{
    let j = skip_ws(s, i);
    if 0 <= j < s.len() && s[j] == ']' {
    } else if 0 <= j < s.len() && s[j] == ',' {
        let j2 = skip_ws(s, j + 1);
        match p_job(s, j2) {
            Some(p) => {
                if i < p.1 <= s.len() {
                    lemma_p_job_wf(s, j2);
                    let acc2 = acc.push(p.0);
                    assert(forall|q: int| 0 <= q < acc2.len() ==> job_wf(#[trigger] acc2[q]));
                    lemma_p_jobs_rest_wf(s, p.1, acc2);
                }
            },
            None => {},
        }
    }
}

proof fn lemma_p_jobs_wf(s: Seq<char>, i: int)
    ensures
        match p_jobs(s, i) {
            Some(p) => store_wf(p.0),
            None => true,
        },
{
    let j = skip_ws(s, i);
    if 0 <= j < s.len() && s[j] == ']' {
    } else {
        match p_job(s, j) {
            Some(p) => {
                if i < p.1 <= s.len() {
                    lemma_p_job_wf(s, j);
                    lemma_p_jobs_rest_wf(s, p.1, seq![p.0]);
                }
            },
            None => {},
        }
    }
}

/// Whatever text parses, the collection it yields is well formed: every
/// record's date list is strictly ascending and made of valid dates.
pub proof fn lemma_parse_wf(s: Seq<char>)
    ensures
        match spec_parse(s) {
            Some(v) => store_wf(v),
            None => true,
        },
{
    match expect(s, skip_ws(s, 0), seq!['{']) {
        Some(a) => match p_key_colon(s, a, key_jobs()) {
            Some(b) => match expect(s, b, seq!['[']) {
                Some(c) => {
                    lemma_p_jobs_wf(s, c);
                },
                None => {},
            },
            None => {},
        },
        None => {},
    }
}

impl ApplicationStore {
    /// Parses persisted text. Returns the collection exactly when the text
    /// is a serialization of one — in which case the collection is well
    /// formed — and nothing otherwise.
    pub fn from_json(text: &str) -> (r: Option<ApplicationStore>)
        ensures
            match r {
                Some(store) => spec_parse(text@) == Some(store@) && store_wf(store@),
                None => spec_parse(text@) is None,
            },
    {
        let s = str_to_chars(text);
        let i = e_skip_ws(&s, 0);
        let a = match e_expect_char(&s, i, '{') {
            Some(a) => a,
            None => {
                return None;
            },
        };
        let key = tok_jobs();
        let b = match e_key_colon(&s, a, &key) {
            Some(b) => b,
            None => {
                return None;
            },
        };
        let c = match e_expect_char(&s, b, '[') {
            Some(c) => c,
            None => {
                return None;
            },
        };
        let (jobs, j) = match e_jobs(&s, c) {
            Some(p) => p,
            None => {
                return None;
            },
        };
        let j2 = e_skip_ws(&s, j);
        let k = match e_expect_char(&s, j2, '}') {
            Some(k) => k,
            None => {
                return None;
            },
        };
        let end = e_skip_ws(&s, k);
        if end != s.len() {
            return None;
        }
        let store = ApplicationStore { jobs };
        proof {
            assert(store@ =~= job_views(store.jobs@));
            lemma_parse_wf(text@);
            assert(spec_parse(text@) == Some(store@));
        }
        Some(store)
    }
}

} // verus!

verus! {

// ---------------------------------------------------------------------------
// round trip: the canonical text of a collection parses back to it
// ---------------------------------------------------------------------------
/// The text from position `i` on.
pub open spec fn tail_at(w: Seq<char>, i: int) -> Seq<char> {
    w.subrange(i, w.len() as int)
}

/// Splitting off a known prefix of the remaining text.
proof fn lemma_step(w: Seq<char>, i: int, a: Seq<char>, b: Seq<char>)
    requires
        0 <= i <= w.len(),
        tail_at(w, i) == a + b,
    ensures
        i + a.len() + b.len() == w.len(),
        tail_at(w, i + a.len()) == b,
        forall|q: int| i <= q < i + a.len() ==> #[trigger] w[q] == a[q - i],
{
    assert(tail_at(w, i).len() == w.len() - i);
    assert forall|q: int| i <= q < i + a.len() implies #[trigger] w[q] == a[q - i] by {
        assert(tail_at(w, i)[q - i] == w[q]);
        assert((a + b)[q - i] == a[q - i]);
    }
    assert(tail_at(w, i + a.len() as int) =~= b) by {
        assert forall|q: int| 0 <= q < b.len() implies tail_at(w, i + a.len() as int)[q] == b[q] by {
            assert(tail_at(w, i + a.len() as int)[q] == w[i + a.len() + q]);
            assert(tail_at(w, i)[a.len() + q] == w[i + a.len() + q]);
            assert((a + b)[a.len() + q] == b[q]);
        }
    }
}

/// Whitespace skipping stops at once on a non-whitespace character or at the
/// end of the text.
proof fn lemma_skip_ws_at(w: Seq<char>, i: int)
    requires
        0 <= i,
        i < w.len() ==> !is_ws(w[i]),
    ensures
        skip_ws(w, i) == i,
{
}

/// A literal standing verbatim at the front of the remaining text is found.
proof fn lemma_expect_at(w: Seq<char>, i: int, t: Seq<char>, b: Seq<char>)
    requires
        0 <= i <= w.len(),
        tail_at(w, i) == t + b,
    ensures
        expect(w, i, t) == Some(i + t.len()),
        i + t.len() + b.len() == w.len(),
        tail_at(w, i + t.len()) == b,
        forall|q: int| i <= q < i + t.len() ==> #[trigger] w[q] == t[q - i],
{
    lemma_step(w, i, t, b);
    assert(w.subrange(i, i + t.len() as int) =~= t);
}

/// A character that stands for itself in a JSON string.
pub open spec fn plain_char(c: char) -> bool {
    c != '"' && c != '\\' && (c as int) >= 0x20
}

proof fn lemma_hex_round_trip(n: int)
    requires
        0 <= n <= 15,
    ensures
        hex_val(hex_digit(n)) == n,
{
}

/// A control character survives the trip through its `\u00XX` escape.
proof fn lemma_char_low_round_trip(c: char)
    requires
        (c as int) < 0x20,
    ensures
        0 <= (c as int) < 0x20,
        (((c as int) as u8) as char) == c,
{
}

/// An escaped text followed by a closing quote reads back as that text.
proof fn lemma_p_strbody_canonical(w: Seq<char>, i: int, u: Seq<char>, b: Seq<char>)
    requires
        0 <= i <= w.len(),
        tail_at(w, i) == esc(u) + seq!['"'] + b,
    ensures
        p_strbody(w, i) == Some((u, i + esc(u).len() + 1)),
        i + esc(u).len() + 1 + b.len() == w.len(),
        tail_at(w, i + esc(u).len() + 1) == b,
    decreases u.len(),
{
    if u.len() == 0 {
        assert(esc(u) =~= Seq::<char>::empty());
        assert(tail_at(w, i) =~= seq!['"'] + b);
        lemma_step(w, i, seq!['"'], b);
        assert(w[i] == '"');
    } else {
        let c = u[0];
        let u1 = u.drop_first();
        assert(esc(u) == esc1(c) + esc(u1));
        let rest = esc(u1) + seq!['"'] + b;
        assert(tail_at(w, i) =~= esc1(c) + rest);
        lemma_step(w, i, esc1(c), rest);
        let i2 = i + esc1(c).len();
        lemma_p_strbody_canonical(w, i2, u1, b);
        assert(seq![c] + u1 =~= u);
        if c == '"' {
            assert(esc1(c) =~= seq!['\\', '"']);
            assert(w[i] == '\\' && w[i + 1] == '"');
            assert(is_simple_escape(w[i + 1]));
            assert(esc_code(w[i + 1]) == c);
            assert(p_strbody(w, i) == Some((u, i + esc(u).len() + 1)));
        } else if c == '\\' {
            assert(esc1(c) =~= seq!['\\', '\\']);
            assert(w[i] == '\\' && w[i + 1] == '\\');
            assert(is_simple_escape(w[i + 1]));
            assert(esc_code(w[i + 1]) == c);
            assert(p_strbody(w, i) == Some((u, i + esc(u).len() + 1)));
        } else if (c as int) < 0x20 {
            lemma_char_low_round_trip(c);
            let hi = (c as int) / 16;
            let lo = (c as int) % 16;
            assert(esc1(c) =~= seq!['\\', 'u', '0', '0', hex_digit(hi), hex_digit(lo)]);
            assert(w[i] == '\\' && w[i + 1] == 'u' && w[i + 2] == '0' && w[i + 3] == '0');
            assert(w[i + 4] == hex_digit(hi) && w[i + 5] == hex_digit(lo));
            assert(!is_simple_escape(w[i + 1]));
            lemma_hex_round_trip(hi);
            lemma_hex_round_trip(lo);
            assert(16 * hex_val(w[i + 4]) + hex_val(w[i + 5]) == c as int);
            assert(p_strbody(w, i) == Some((u, i + esc(u).len() + 1)));
        } else {
            assert(esc1(c) =~= seq![c]);
            assert(w[i] == c);
            assert(p_strbody(w, i) == Some((u, i + esc(u).len() + 1)));
        }
    }
}

/// A quoted, escaped text reads back as the text.
proof fn lemma_p_string_canonical(w: Seq<char>, i: int, u: Seq<char>, b: Seq<char>)
    requires
        0 <= i <= w.len(),
        tail_at(w, i) == quoted(u) + b,
    ensures
        p_string(w, i) == Some((u, i + quoted(u).len())),
        i + quoted(u).len() + b.len() == w.len(),
        tail_at(w, i + quoted(u).len()) == b,
{
    assert(tail_at(w, i) =~= seq!['"'] + (esc(u) + seq!['"'] + b));
    lemma_step(w, i, seq!['"'], esc(u) + seq!['"'] + b);
    assert(w[i] == '"');
    lemma_p_strbody_canonical(w, i + 1, u, b);
}

/// Escaping changes nothing in a text of plain characters.
proof fn lemma_esc_plain(u: Seq<char>)
    requires
        forall|q: int| 0 <= q < u.len() ==> plain_char(#[trigger] u[q]),
    ensures
        esc(u) == u,
    decreases u.len(),
{
    if u.len() == 0 {
        assert(esc(u) =~= u);
    } else {
        assert(plain_char(u[0]));
        assert(esc1(u[0]) =~= seq![u[0]]);
        let u1 = u.drop_first();
        assert forall|q: int| 0 <= q < u1.len() implies plain_char(#[trigger] u1[q]) by {
            assert(u1[q] == u[q + 1]);
            assert(plain_char(u[q + 1]));
        }
        lemma_esc_plain(u1);
        assert(esc(u) =~= u);
    }
}

proof fn lemma_digit_plain(n: int)
    requires
        0 <= n <= 9,
    ensures
        plain_char(digit_char(n)),
{
}

/// Date text holds only digits and dashes: nothing an escape would touch.
proof fn lemma_date_chars_plain(d: Date)
    requires
        d.valid(),
    ensures
        forall|q: int| 0 <= q < date_chars(d).len() ==> plain_char(#[trigger] date_chars(d)[q]),
{
    let s = date_chars(d);
    let y = d.year as int;
    let m = d.month as int;
    let dd = d.day as int;
    lemma_digit_plain(y / 1000);
    lemma_digit_plain(y / 100 % 10);
    lemma_digit_plain(y / 10 % 10);
    lemma_digit_plain(y % 10);
    lemma_digit_plain(m / 10);
    lemma_digit_plain(m % 10);
    lemma_digit_plain(dd / 10);
    lemma_digit_plain(dd % 10);
    assert forall|q: int| 0 <= q < s.len() implies plain_char(#[trigger] s[q]) by {
        if q == 4 || q == 7 {
            assert(s[q] == '-');
        }
    }
}

/// A canonical date string reads back as the date.
proof fn lemma_date_elem_canonical(w: Seq<char>, i: int, d: Date, b: Seq<char>)
    requires
        0 <= i <= w.len(),
        d.valid(),
        tail_at(w, i) == date_text(d) + b,
    ensures
        p_date_elem(w, i) == Some((d, i + 12)),
        i + 12 + b.len() == w.len(),
        tail_at(w, i + 12) == b,
{
    lemma_date_chars_plain(d);
    lemma_esc_plain(date_chars(d));
    assert(quoted(date_chars(d)) =~= date_text(d));
    lemma_p_string_canonical(w, i, date_chars(d), b);
    crate::date::lemma_date_text_round_trip(d);
    assert(quoted(date_chars(d)).len() == 12);
}

} // verus!

verus! {

/// Concatenation is associative.
proof fn lemma_seq_assoc(a: Seq<char>, b: Seq<char>, c: Seq<char>)
    ensures
        (a + b) + c == a + (b + c),
{
    assert((a + b) + c =~= a + (b + c));
}

/// A record's text opens with its brace.
proof fn lemma_job_text_head(j: JobView)
    ensures
        job_text(j).len() > 0,
        job_text(j)[0] == '{',
        !is_ws(job_text(j)[0]),
{
}

/// The canonical tail of a date array — commas and dates, then the closing
/// bracket — reads back as those dates appended to what was already read.
proof fn lemma_p_dates_rest_canonical(
    w: Seq<char>,
    i: int,
    last: Date,
    acc: Seq<Date>,
    ds: Seq<Date>,
    b: Seq<char>,
)
    requires
        0 <= i <= w.len(),
        tail_at(w, i) == dates_rest_text(ds) + seq![']'] + b,
        forall|q: int| 0 <= q < ds.len() ==> (#[trigger] ds[q]).valid(),
        sorted_dates(ds),
        ds.len() > 0 ==> date_lt(last, ds[0]),
    ensures
        p_dates_rest(w, i, last, acc) == Some((acc + ds, i + dates_rest_text(ds).len() + 1)),
        i + dates_rest_text(ds).len() + 1 + b.len() == w.len(),
        tail_at(w, i + dates_rest_text(ds).len() + 1) == b,
    decreases ds.len(),
{
    if ds.len() == 0 {
        assert(dates_rest_text(ds) =~= Seq::<char>::empty());
        assert(tail_at(w, i) =~= seq![']'] + b);
        lemma_step(w, i, seq![']'], b);
        assert(w[i] == ']');
        lemma_skip_ws_at(w, i);
        assert(acc + ds =~= acc);
    } else {
        let d0 = ds[0];
        let ds1 = ds.drop_first();
        assert(dates_rest_text(ds) == seq![','] + date_text(d0) + dates_rest_text(ds1));
        let rest = date_text(d0) + dates_rest_text(ds1) + seq![']'] + b;
        assert(tail_at(w, i) =~= seq![','] + rest);
        lemma_step(w, i, seq![','], rest);
        assert(w[i] == ',');
        lemma_skip_ws_at(w, i);
        let i1 = i + 1;
        assert(tail_at(w, i1) =~= date_text(d0) + (dates_rest_text(ds1) + seq![']'] + b));
        lemma_step(w, i1, date_text(d0), dates_rest_text(ds1) + seq![']'] + b);
        assert(w[i1] == '"');
        lemma_skip_ws_at(w, i1);
        lemma_date_elem_canonical(w, i1, d0, dates_rest_text(ds1) + seq![']'] + b);
        let i2 = i1 + 12;
        assert(tail_at(w, i2) =~= dates_rest_text(ds1) + seq![']'] + b);
        assert forall|q: int| 0 <= q < ds1.len() implies (#[trigger] ds1[q]).valid() by {
            assert(ds1[q] == ds[q + 1]);
            assert(ds[q + 1].valid());
        }
        assert(sorted_dates(ds1)) by {
            assert forall|a: int, bq: int| #![trigger ds1[a], ds1[bq]] 0 <= a < bq < ds1.len()
                implies date_lt(ds1[a], ds1[bq]) by {
                assert(ds1[a] == ds[a + 1] && ds1[bq] == ds[bq + 1]);
                assert(date_lt(ds[a + 1], ds[bq + 1]));
            }
        }
        assert(ds1.len() > 0 ==> date_lt(d0, ds1[0])) by {
            if ds1.len() > 0 {
                assert(ds1[0] == ds[1]);
                assert(date_lt(ds[0], ds[1]));
            }
        }
        lemma_p_dates_rest_canonical(w, i2, d0, acc.push(d0), ds1, b);
        assert(acc.push(d0) + ds1 =~= acc + ds);
        assert(p_dates_rest(w, i, last, acc) == Some((acc + ds, i + dates_rest_text(ds).len() + 1)));
    }
}

/// A canonical date array reads back as its dates.
proof fn lemma_p_dates_canonical(w: Seq<char>, i: int, ds: Seq<Date>, b: Seq<char>)
    requires
        0 <= i <= w.len(),
        tail_at(w, i) == dates_list_text(ds) + seq![']'] + b,
        forall|q: int| 0 <= q < ds.len() ==> (#[trigger] ds[q]).valid(),
        sorted_dates(ds),
    ensures
        p_dates(w, i) == Some((ds, i + dates_list_text(ds).len() + 1)),
        i + dates_list_text(ds).len() + 1 + b.len() == w.len(),
        tail_at(w, i + dates_list_text(ds).len() + 1) == b,
{
    if ds.len() == 0 {
        assert(dates_list_text(ds) =~= Seq::<char>::empty());
        assert(tail_at(w, i) =~= seq![']'] + b);
        lemma_step(w, i, seq![']'], b);
        assert(w[i] == ']');
        lemma_skip_ws_at(w, i);
        assert(ds =~= Seq::<Date>::empty());
    } else {
        let d0 = ds[0];
        let ds1 = ds.drop_first();
        assert(dates_list_text(ds) == date_text(d0) + dates_rest_text(ds1));
        assert(tail_at(w, i) =~= date_text(d0) + (dates_rest_text(ds1) + seq![']'] + b));
        lemma_step(w, i, date_text(d0), dates_rest_text(ds1) + seq![']'] + b);
        assert(w[i] == '"');
        lemma_skip_ws_at(w, i);
        lemma_date_elem_canonical(w, i, d0, dates_rest_text(ds1) + seq![']'] + b);
        let i2 = i + 12;
        assert(tail_at(w, i2) =~= dates_rest_text(ds1) + seq![']'] + b);
        assert forall|q: int| 0 <= q < ds1.len() implies (#[trigger] ds1[q]).valid() by {
            assert(ds1[q] == ds[q + 1]);
            assert(ds[q + 1].valid());
        }
        assert(sorted_dates(ds1)) by {
            assert forall|a: int, bq: int| #![trigger ds1[a], ds1[bq]] 0 <= a < bq < ds1.len()
                implies date_lt(ds1[a], ds1[bq]) by {
                assert(ds1[a] == ds[a + 1] && ds1[bq] == ds[bq + 1]);
                assert(date_lt(ds[a + 1], ds[bq + 1]));
            }
        }
        assert(ds1.len() > 0 ==> date_lt(d0, ds1[0])) by {
            if ds1.len() > 0 {
                assert(ds1[0] == ds[1]);
                assert(date_lt(ds[0], ds[1]));
            }
        }
        lemma_p_dates_rest_canonical(w, i2, d0, seq![d0], ds1, b);
        assert(seq![d0] + ds1 =~= ds);
        assert(p_dates(w, i) == Some((ds, i + dates_list_text(ds).len() + 1)));
    }
}

/// A key and colon standing canonically at the front are consumed, leaving
/// the value, whose first character must not be whitespace.
proof fn lemma_p_key_colon_canonical(w: Seq<char>, i: int, key: Seq<char>, b: Seq<char>)
    requires
        0 <= i <= w.len(),
        tail_at(w, i) == key + seq![':'] + b,
        key.len() > 0,
        !is_ws(key[0]),
        b.len() > 0,
        !is_ws(b[0]),
    ensures
        p_key_colon(w, i, key) == Some(i + key.len() + 1),
        i + key.len() + 1 + b.len() == w.len(),
        tail_at(w, i + key.len() + 1) == b,
{
    assert(tail_at(w, i) =~= key + (seq![':'] + b));
    lemma_step(w, i, key, seq![':'] + b);
    assert(w[i] == key[0]);
    lemma_skip_ws_at(w, i);
    lemma_expect_at(w, i, key, seq![':'] + b);
    let k = i + key.len();
    assert(tail_at(w, k) =~= seq![':'] + b);
    lemma_step(w, k, seq![':'], b);
    assert(w[k] == ':');
    lemma_skip_ws_at(w, k);
    lemma_expect_at(w, k, seq![':'], b);
    assert(w[k + 1] == b[0]);
    lemma_skip_ws_at(w, k + 1);
}

/// A quoted text opens with its quote.
proof fn lemma_quoted_head(u: Seq<char>)
    ensures
        quoted(u).len() > 1,
        quoted(u)[0] == '"',
        !is_ws(quoted(u)[0]),
{
}

/// The tail of a record's text from its date-list key on.
spec fn job_tail_dates(j: JobView) -> Seq<char> {
    key_dates() + (seq![':'] + (seq!['['] + (dates_list_text(j.dates) + (seq![']'] + seq!['}']))))
}

/// The tail of a record's text from its status key on.
spec fn job_tail_status(j: JobView) -> Seq<char> {
    key_status() + (seq![':'] + (quoted(j.status) + (seq![','] + job_tail_dates(j))))
}

/// The tail of a record's text from its position key on.
spec fn job_tail_position(j: JobView) -> Seq<char> {
    key_position() + (seq![':'] + (quoted(j.position) + (seq![','] + job_tail_status(j))))
}

/// The text of a record after its opening brace.
spec fn job_tail_company(j: JobView) -> Seq<char> {
    key_company() + (seq![':'] + (quoted(j.company) + (seq![','] + job_tail_position(j))))
}

/// The shape of a record's text as nested concatenations, grouped the way
/// the parser consumes it.
#[verifier::rlimit(100)]
proof fn lemma_job_text_shape(j: JobView)
    ensures
        job_text(j) == seq!['{'] + job_tail_company(j),
{
    assert(job_text(j) =~= seq!['{'] + job_tail_company(j));
}

/// A canonical record object reads back as its record.
#[verifier::rlimit(100)]
proof fn lemma_p_job_canonical(w: Seq<char>, i: int, j: JobView, b: Seq<char>)
    requires
        0 <= i <= w.len(),
        job_wf(j),
        tail_at(w, i) == job_text(j) + b,
    ensures
        p_job(w, i) == Some((j, i + job_text(j).len())),
        i + job_text(j).len() + b.len() == w.len(),
        tail_at(w, i + job_text(j).len()) == b,
{
    let qc = quoted(j.company);
    let qp = quoted(j.position);
    let qs = quoted(j.status);
    let dl = dates_list_text(j.dates);
    let r17 = seq![']'] + seq!['}'];
    let r16 = dl + r17;
    let r15 = seq!['['] + r16;
    let r14 = seq![':'] + r15;
    let r13 = key_dates() + r14;
    let r12 = seq![','] + r13;
    let r11 = qs + r12;
    let r10 = seq![':'] + r11;
    let r9 = key_status() + r10;
    let r8 = seq![','] + r9;
    let r7 = qp + r8;
    let r6 = seq![':'] + r7;
    let r5 = key_position() + r6;
    let r4 = seq![','] + r5;
    let r3 = qc + r4;
    let r2 = seq![':'] + r3;
    let r1 = key_company() + r2;
    lemma_job_text_shape(j);
    assert(r13 == job_tail_dates(j));
    assert(r9 == job_tail_status(j));
    assert(r5 == job_tail_position(j));
    assert(r1 == job_tail_company(j));
    assert(job_text(j) == seq!['{'] + r1);
    lemma_quoted_head(j.company);
    lemma_quoted_head(j.position);
    lemma_quoted_head(j.status);

    lemma_seq_assoc(seq!['{'], r1, b);
    assert(tail_at(w, i) == seq!['{'] + (r1 + b));
    lemma_step(w, i, seq!['{'], r1 + b);
    lemma_expect_at(w, i, seq!['{'], r1 + b);
    let a = i + 1;

    lemma_seq_assoc(key_company(), r2, b);
    assert(tail_at(w, a) == key_company() + (r2 + b));
    lemma_seq_assoc(seq![':'], r3, b);
    assert(r2 + b == seq![':'] + (r3 + b));
    lemma_seq_assoc(key_company(), seq![':'], r3 + b);
    assert(tail_at(w, a) == key_company() + seq![':'] + (r3 + b));
    lemma_seq_assoc(qc, r4, b);
    assert((r3 + b)[0] == qc[0]);
    lemma_p_key_colon_canonical(w, a, key_company(), r3 + b);
    let b1 = a + key_company().len() + 1;
    assert(tail_at(w, b1) == qc + (r4 + b));
    lemma_p_string_canonical(w, b1, j.company, r4 + b);
    let c1 = b1 + qc.len();

    lemma_seq_assoc(seq![','], r5, b);
    assert(tail_at(w, c1) == seq![','] + (r5 + b));
    lemma_step(w, c1, seq![','], r5 + b);
    assert(w[c1] == ',');
    lemma_skip_ws_at(w, c1);
    lemma_expect_at(w, c1, seq![','], r5 + b);
    let c2 = c1 + 1;

    lemma_seq_assoc(key_position(), r6, b);
    assert(tail_at(w, c2) == key_position() + (r6 + b));
    lemma_seq_assoc(seq![':'], r7, b);
    assert(r6 + b == seq![':'] + (r7 + b));
    lemma_seq_assoc(key_position(), seq![':'], r7 + b);
    assert(tail_at(w, c2) == key_position() + seq![':'] + (r7 + b));
    lemma_seq_assoc(qp, r8, b);
    assert((r7 + b)[0] == qp[0]);
    lemma_p_key_colon_canonical(w, c2, key_position(), r7 + b);
    let e1 = c2 + key_position().len() + 1;
    assert(tail_at(w, e1) == qp + (r8 + b));
    lemma_p_string_canonical(w, e1, j.position, r8 + b);
    let f1 = e1 + qp.len();

    lemma_seq_assoc(seq![','], r9, b);
    assert(tail_at(w, f1) == seq![','] + (r9 + b));
    lemma_step(w, f1, seq![','], r9 + b);
    assert(w[f1] == ',');
    lemma_skip_ws_at(w, f1);
    lemma_expect_at(w, f1, seq![','], r9 + b);
    let f2 = f1 + 1;

    lemma_seq_assoc(key_status(), r10, b);
    assert(tail_at(w, f2) == key_status() + (r10 + b));
    lemma_seq_assoc(seq![':'], r11, b);
    assert(r10 + b == seq![':'] + (r11 + b));
    lemma_seq_assoc(key_status(), seq![':'], r11 + b);
    assert(tail_at(w, f2) == key_status() + seq![':'] + (r11 + b));
    lemma_seq_assoc(qs, r12, b);
    assert((r11 + b)[0] == qs[0]);
    lemma_p_key_colon_canonical(w, f2, key_status(), r11 + b);
    let g1 = f2 + key_status().len() + 1;
    assert(tail_at(w, g1) == qs + (r12 + b));
    lemma_p_string_canonical(w, g1, j.status, r12 + b);
    let h1 = g1 + qs.len();

    lemma_seq_assoc(seq![','], r13, b);
    assert(tail_at(w, h1) == seq![','] + (r13 + b));
    lemma_step(w, h1, seq![','], r13 + b);
    assert(w[h1] == ',');
    lemma_skip_ws_at(w, h1);
    lemma_expect_at(w, h1, seq![','], r13 + b);
    let h2 = h1 + 1;

    lemma_seq_assoc(key_dates(), r14, b);
    assert(tail_at(w, h2) == key_dates() + (r14 + b));
    lemma_seq_assoc(seq![':'], r15, b);
    assert(r14 + b == seq![':'] + (r15 + b));
    lemma_seq_assoc(key_dates(), seq![':'], r15 + b);
    assert(tail_at(w, h2) == key_dates() + seq![':'] + (r15 + b));
    lemma_seq_assoc(seq!['['], r16, b);
    assert((r15 + b)[0] == '[');
    lemma_p_key_colon_canonical(w, h2, key_dates(), r15 + b);
    let m1 = h2 + key_dates().len() + 1;
    assert(tail_at(w, m1) == seq!['['] + (r16 + b));
    lemma_step(w, m1, seq!['['], r16 + b);
    lemma_expect_at(w, m1, seq!['['], r16 + b);
    let m2 = m1 + 1;

    lemma_seq_assoc(dl, r17, b);
    assert(tail_at(w, m2) == dl + (r17 + b));
    lemma_seq_assoc(seq![']'], seq!['}'], b);
    assert(r17 + b == seq![']'] + (seq!['}'] + b));
    lemma_seq_assoc(dl, seq![']'], seq!['}'] + b);
    assert(tail_at(w, m2) == dl + seq![']'] + (seq!['}'] + b));
    lemma_p_dates_canonical(w, m2, j.dates, seq!['}'] + b);
    let d1 = m2 + dl.len() + 1;

    assert(tail_at(w, d1) == seq!['}'] + b);
    lemma_step(w, d1, seq!['}'], b);
    assert(w[d1] == '}');
    lemma_skip_ws_at(w, d1);
    lemma_expect_at(w, d1, seq!['}'], b);
    let end = d1 + 1;
    assert(end == i + job_text(j).len());
    assert(p_job(w, i) == Some((j, end)));
}

} // verus!

verus! {

/// The canonical tail of the record array reads back as those records
/// appended to what was already read.
#[verifier::rlimit(100)]
proof fn lemma_p_jobs_rest_canonical(
    w: Seq<char>,
    i: int,
    acc: Seq<JobView>,
    v: Seq<JobView>,
    b: Seq<char>,
)
    requires
        0 <= i <= w.len(),
        tail_at(w, i) == jobs_rest_text(v) + seq![']'] + b,
        store_wf(v),
    ensures
        p_jobs_rest(w, i, acc) == Some((acc + v, i + jobs_rest_text(v).len() + 1)),
        i + jobs_rest_text(v).len() + 1 + b.len() == w.len(),
        tail_at(w, i + jobs_rest_text(v).len() + 1) == b,
    decreases v.len(),
{
    if v.len() == 0 {
        assert(jobs_rest_text(v) =~= Seq::<char>::empty());
        assert(tail_at(w, i) =~= seq![']'] + b);
        lemma_step(w, i, seq![']'], b);
        assert(w[i] == ']');
        lemma_skip_ws_at(w, i);
        assert(acc + v =~= acc);
    } else {
        let j0 = v[0];
        let v1 = v.drop_first();
        assert(jobs_rest_text(v) == seq![','] + job_text(j0) + jobs_rest_text(v1));
        let rest = job_text(j0) + jobs_rest_text(v1) + seq![']'] + b;
        lemma_seq_assoc(seq![','], job_text(j0), jobs_rest_text(v1));
        lemma_seq_assoc(seq![','], job_text(j0) + jobs_rest_text(v1), seq![']']);
        lemma_seq_assoc(seq![','] + (job_text(j0) + jobs_rest_text(v1)), seq![']'], b);
        lemma_seq_assoc(seq![','], (job_text(j0) + jobs_rest_text(v1)) + seq![']'], b);
        lemma_seq_assoc(job_text(j0), jobs_rest_text(v1), seq![']']);
        lemma_seq_assoc(job_text(j0), jobs_rest_text(v1) + seq![']'], b);
        assert(tail_at(w, i) == seq![','] + rest);
        lemma_step(w, i, seq![','], rest);
        assert(w[i] == ',');
        lemma_skip_ws_at(w, i);
        let i1 = i + 1;
        assert(rest == job_text(j0) + (jobs_rest_text(v1) + seq![']'] + b));
        lemma_step(w, i1, job_text(j0), jobs_rest_text(v1) + seq![']'] + b);
        lemma_job_text_head(j0);
        assert(w[i1] == job_text(j0)[0]);
        lemma_skip_ws_at(w, i1);
        assert(job_wf(j0));
        lemma_p_job_canonical(w, i1, j0, jobs_rest_text(v1) + seq![']'] + b);
        let i2 = i1 + job_text(j0).len();
        assert(store_wf(v1)) by {
            assert forall|q: int| 0 <= q < v1.len() implies job_wf(#[trigger] v1[q]) by {
                assert(v1[q] == v[q + 1]);
                assert(job_wf(v[q + 1]));
            }
        }
        lemma_p_jobs_rest_canonical(w, i2, acc.push(j0), v1, b);
        assert(acc.push(j0) + v1 =~= acc + v);
        assert(p_jobs_rest(w, i, acc) == Some((acc + v, i + jobs_rest_text(v).len() + 1)));
    }
}

/// A canonical record array reads back as its records.
#[verifier::rlimit(100)]
proof fn lemma_p_jobs_canonical(w: Seq<char>, i: int, v: Seq<JobView>, b: Seq<char>)
    requires
        0 <= i <= w.len(),
        tail_at(w, i) == jobs_list_text(v) + seq![']'] + b,
        store_wf(v),
    ensures
        p_jobs(w, i) == Some((v, i + jobs_list_text(v).len() + 1)),
        i + jobs_list_text(v).len() + 1 + b.len() == w.len(),
        tail_at(w, i + jobs_list_text(v).len() + 1) == b,
{
    if v.len() == 0 {
        assert(jobs_list_text(v) =~= Seq::<char>::empty());
        assert(tail_at(w, i) =~= seq![']'] + b);
        lemma_step(w, i, seq![']'], b);
        assert(w[i] == ']');
        lemma_skip_ws_at(w, i);
        assert(v =~= Seq::<JobView>::empty());
    } else {
        let j0 = v[0];
        let v1 = v.drop_first();
        assert(jobs_list_text(v) == job_text(j0) + jobs_rest_text(v1));
        lemma_seq_assoc(job_text(j0), jobs_rest_text(v1), seq![']']);
        lemma_seq_assoc(job_text(j0), jobs_rest_text(v1) + seq![']'], b);
        assert(tail_at(w, i) == job_text(j0) + (jobs_rest_text(v1) + seq![']'] + b));
        lemma_step(w, i, job_text(j0), jobs_rest_text(v1) + seq![']'] + b);
        lemma_job_text_head(j0);
        assert(w[i] == job_text(j0)[0]);
        lemma_skip_ws_at(w, i);
        assert(job_wf(j0));
        lemma_p_job_canonical(w, i, j0, jobs_rest_text(v1) + seq![']'] + b);
        let i2 = i + job_text(j0).len();
        assert(store_wf(v1)) by {
            assert forall|q: int| 0 <= q < v1.len() implies job_wf(#[trigger] v1[q]) by {
                assert(v1[q] == v[q + 1]);
                assert(job_wf(v[q + 1]));
            }
        }
        lemma_p_jobs_rest_canonical(w, i2, seq![j0], v1, b);
        assert(seq![j0] + v1 =~= v);
        assert(p_jobs(w, i) == Some((v, i + jobs_list_text(v).len() + 1)));
    }
}

/// Round trip: serializing a well-formed collection and parsing the text
/// back yields the identical collection — same records, same order, same
/// date lists. Together with the contracts of `to_json` and `from_json`,
/// loading what was saved restores the store exactly.
/// Round trip: serializing a well-formed collection and parsing the text
/// back yields the identical collection — same records, same order, same
/// date lists. Together with the contracts of `to_json` and `from_json`,
/// loading what was saved restores the store exactly.
proof fn lemma_tail_zero(w: Seq<char>)
    ensures
        tail_at(w, 0) == w,
{
    assert(tail_at(w, 0) =~= w);
}

proof fn lemma_seq_empty_right(a: Seq<char>)
    ensures
        a + Seq::<char>::empty() == a,
{
    assert(a + Seq::<char>::empty() =~= a);
}

#[verifier::rlimit(100)]
proof fn lemma_doc_open(w: Seq<char>, v: Seq<JobView>)
    requires
        w == seq!['{'] + (key_jobs() + (seq![':'] + (seq!['['] + (jobs_list_text(v) + (seq![']']
            + seq!['}']))))),
    ensures
        skip_ws(w, 0) == 0,
        expect(w, 0, seq!['{']) == Some(1int),
        p_key_colon(w, 1, key_jobs()) == Some(key_jobs().len() + 2int),
        expect(w, key_jobs().len() + 2int, seq!['[']) == Some(key_jobs().len() + 3int),
        key_jobs().len() + 3int <= w.len(),
        tail_at(w, key_jobs().len() + 3int) == jobs_list_text(v) + seq![']'] + seq!['}'],
{
    let jl = jobs_list_text(v);
    let r5 = seq![']'] + seq!['}'];
    let r4 = jl + r5;
    let r3 = seq!['['] + r4;
    let r2 = seq![':'] + r3;
    let r1 = key_jobs() + r2;
    lemma_tail_zero(w);
    assert(tail_at(w, 0) == seq!['{'] + r1);
    lemma_step(w, 0, seq!['{'], r1);
    assert(w[0] == '{');
    lemma_skip_ws_at(w, 0);
    lemma_expect_at(w, 0, seq!['{'], r1);
    let a = 1;
    assert(tail_at(w, a) == key_jobs() + seq![':'] + r3) by {
        lemma_seq_assoc(key_jobs(), seq![':'], r3);
    }
    assert(r3[0] == '[');
    assert(key_jobs()[0] == '"');
    lemma_p_key_colon_canonical(w, a, key_jobs(), r3);
    let b1 = a + key_jobs().len() + 1;
    lemma_step(w, b1, seq!['['], r4);
    lemma_expect_at(w, b1, seq!['['], r4);
    let c = b1 + 1;
    assert(tail_at(w, c) == jl + seq![']'] + seq!['}']) by {
        lemma_seq_assoc(jl, seq![']'], seq!['}']);
    }
}

#[verifier::rlimit(100)]
proof fn lemma_doc_canonical(w: Seq<char>, v: Seq<JobView>)
    requires
        store_wf(v),
        w == seq!['{'] + (key_jobs() + (seq![':'] + (seq!['['] + (jobs_list_text(v) + (seq![']']
            + seq!['}']))))),
    ensures
        spec_parse(w) == Some(v),
{
    lemma_doc_open(w, v);
    let c = key_jobs().len() + 3int;
    lemma_p_jobs_canonical(w, c, v, seq!['}']);
    let d1 = c + jobs_list_text(v).len() + 1;
    lemma_seq_empty_right(seq!['}']);
    assert(tail_at(w, d1) == seq!['}'] + Seq::<char>::empty());
    lemma_step(w, d1, seq!['}'], Seq::<char>::empty());
    assert(w[d1] == '}');
    lemma_skip_ws_at(w, d1);
    lemma_expect_at(w, d1, seq!['}'], Seq::<char>::empty());
    let k = d1 + 1;
    assert(k == w.len());
    assert(skip_ws(w, k) == k);
    assert(spec_parse(w) == Some(v));
}

/// Round trip: serializing a well-formed collection and parsing the text
/// back yields the identical collection — same records, same order, same
/// date lists. Together with the contracts of `to_json` and `from_json`,
/// loading what was saved restores the store exactly.
/// Round trip: serializing a well-formed collection and parsing the text
/// back yields the identical collection — same records, same order, same
/// date lists. Together with the contracts of `to_json` and `from_json`,
/// loading what was saved restores the store exactly.
/// Round trip: serializing a well-formed collection and parsing the text
/// back yields the identical collection — same records, same order, same
/// date lists. Together with the contracts of `to_json` and `from_json`,
/// loading what was saved restores the store exactly.
#[verifier::rlimit(100)]
pub proof fn lemma_round_trip(v: Seq<JobView>)
    requires
        store_wf(v),
    ensures
        spec_parse(json_of(v)) == Some(v),
{
    let w = json_of(v);
    let jl = jobs_list_text(v);
    let r5 = seq![']'] + seq!['}'];
    let r4 = jl + r5;
    let r3 = seq!['['] + r4;
    let r2 = seq![':'] + r3;
    let r1 = key_jobs() + r2;
    assert(w == seq!['{'] + r1) by {
        lemma_seq_assoc(seq!['{'] + key_jobs() + seq![':'] + seq!['['] + jl, seq![']'], seq!['}']);
        lemma_seq_assoc(seq!['{'] + key_jobs() + seq![':'] + seq!['['], jl, r5);
        lemma_seq_assoc(seq!['{'] + key_jobs() + seq![':'], seq!['['], r4);
        lemma_seq_assoc(seq!['{'] + key_jobs(), seq![':'], r3);
        lemma_seq_assoc(seq!['{'], key_jobs(), r2);
    }
    lemma_doc_canonical(w, v);
}

} // verus!
