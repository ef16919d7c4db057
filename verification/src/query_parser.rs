//! The text form of queries:
//! `FILTER <condition> GROUP BY <column> <COUNT|SUM|AVERAGE> <column>`,
//! where a condition is `!<condition>`, conditions joined by `OR` or by
//! `AND`, or `<column> == "<text>"`, optionally in parentheses.
use vstd::prelude::*;
use crate::dataset::{Datum, Value};
use crate::query::{AggModel, Aggregation, CondModel, Condition, Query, QueryModel, cond_model, query_model};
use crate::text::{
    chars_of, find_in, matches_at, has_pattern, lemma_split_on_lengths, lemma_strip_back, lemma_strip_front,
    ranges_view, ranges_within, skip_front, split_on, split_range, strip, strip_front, strip_range, text_of,
    text_without_quotes, trim, without_quotes, words, words_range,
};

verus! {

pub open spec fn or_word() -> Seq<char> {
    seq!['O', 'R']
}

pub open spec fn and_word() -> Seq<char> {
    seq!['A', 'N', 'D']
}

pub open spec fn equals_sign() -> Seq<char> {
    seq!['=', '=']
}

pub open spec fn group_by_words() -> Seq<char> {
    seq!['G', 'R', 'O', 'U', 'P', ' ', 'B', 'Y']
}

pub open spec fn filter_word() -> Seq<char> {
    seq!['F', 'I', 'L', 'T', 'E', 'R']
}

pub open spec fn count_word() -> Seq<char> {
    seq!['C', 'O', 'U', 'N', 'T']
}

pub open spec fn sum_word() -> Seq<char> {
    seq!['S', 'U', 'M']
}

pub open spec fn average_word() -> Seq<char> {
    seq!['A', 'V', 'E', 'R', 'A', 'G', 'E']
}

/// The condition text once trimmed of white space and then of parentheses.
pub open spec fn core_of(s: Seq<char>) -> Seq<char> {
    strip(trim(s), 1)
}

/// The text after the leading `!` of a negation, trimmed.
pub open spec fn negated_of(c: Seq<char>) -> Seq<char> {
    trim(strip_front(c, 2))
}

/// The joining word: `OR` or `AND`.
pub open spec fn joiner(is_or: bool) -> Seq<char> {
    if is_or {
        or_word()
    } else {
        and_word()
    }
}

pub proof fn lemma_core_len(s: Seq<char>)
    ensures
        core_of(s).len() <= s.len(),
{
    lemma_strip_front(s, 0);
    lemma_strip_back(strip_front(s, 0), 0);
    lemma_strip_front(trim(s), 1);
    lemma_strip_back(strip_front(trim(s), 1), 1);
}

pub proof fn lemma_negated_len(c: Seq<char>)
    requires
        c.len() > 0,
        c[0] == '!',
    ensures
        negated_of(c).len() < c.len(),
{
    assert(strip_front(c, 2) == strip_front(c.drop_first(), 2));
    lemma_strip_front(c.drop_first(), 2);
    lemma_strip_front(strip_front(c, 2), 0);
    lemma_strip_back(strip_front(strip_front(c, 2), 0), 0);
}

/// The condition that `s` denotes.
pub open spec fn parse_cond(s: Seq<char>) -> CondModel
    decreases s.len(), 1int, 0int,
{
    let c = core_of(s);
    proof {
        lemma_core_len(s);
    }
    if c.len() > 0 && c[0] == '!' {
        proof {
            lemma_negated_len(c);
        }
        CondModel::Not(Box::new(parse_cond(negated_of(c))))
    } else if has_pattern(c, or_word()) {
        joined(s, true, split_on(c, or_word()).len() as int)
    } else if has_pattern(c, and_word()) {
        joined(s, false, split_on(c, and_word()).len() as int)
    } else {
        let parts = split_on(c, equals_sign());
        CondModel::Equal(trim(parts[0]), Datum::Text(without_quotes(trim(parts[1]))))
    }
}

/// The first `k` pieces of the condition text of `s` split on the joining
/// word, joined from the left.
pub open spec fn joined(s: Seq<char>, is_or: bool, k: int) -> CondModel
    decreases s.len(), 0int, k,
    when has_pattern(core_of(s), joiner(is_or)) && 1 <= k <= split_on(core_of(s), joiner(is_or)).len()
{
    let parts = split_on(core_of(s), joiner(is_or));
    proof {
        lemma_core_len(s);
        lemma_split_on_lengths(core_of(s), joiner(is_or));
    }
    if k <= 1 {
        parse_cond(parts[0])
    } else {
        let left = Box::new(joined(s, is_or, k - 1));
        let right = Box::new(parse_cond(parts[k - 1]));
        if is_or {
            CondModel::Or(left, right)
        } else {
            CondModel::And(left, right)
        }
    }
}

/// Whether `s` denotes a condition: every comparison has an `==`.
pub open spec fn cond_parses(s: Seq<char>) -> bool
    decreases s.len(), 1int, 0int,
{
    let c = core_of(s);
    proof {
        lemma_core_len(s);
    }
    if c.len() > 0 && c[0] == '!' {
        proof {
            lemma_negated_len(c);
        }
        cond_parses(negated_of(c))
    } else if has_pattern(c, or_word()) {
        pieces_parse(s, true, split_on(c, or_word()).len() as int)
    } else if has_pattern(c, and_word()) {
        pieces_parse(s, false, split_on(c, and_word()).len() as int)
    } else {
        has_pattern(c, equals_sign())
    }
}

/// Whether the first `k` pieces of the condition text of `s`, split on the
/// joining word, denote conditions.
pub open spec fn pieces_parse(s: Seq<char>, is_or: bool, k: int) -> bool
    decreases s.len(), 0int, k,
    when has_pattern(core_of(s), joiner(is_or)) && 0 <= k <= split_on(core_of(s), joiner(is_or)).len()
{
    let parts = split_on(core_of(s), joiner(is_or));
    proof {
        lemma_core_len(s);
        lemma_split_on_lengths(core_of(s), joiner(is_or));
    }
    if k <= 0 {
        true
    } else {
        pieces_parse(s, is_or, k - 1) && cond_parses(parts[k - 1])
    }
}

pub proof fn lemma_pieces_parse_prefix(s: Seq<char>, is_or: bool, n: int, k: int)
    requires
        has_pattern(core_of(s), joiner(is_or)),
        0 <= k <= n <= split_on(core_of(s), joiner(is_or)).len(),
        pieces_parse(s, is_or, n),
    ensures
        pieces_parse(s, is_or, k),
        k >= 1 ==> cond_parses(split_on(core_of(s), joiner(is_or))[k - 1]),
    decreases n - k,
{
    if k < n {
        lemma_pieces_parse_prefix(s, is_or, n, k + 1);
    }
}

fn or_chars() -> (v: Vec<char>)
    ensures
        v@ == or_word(),
{
    let mut v = Vec::new();
    v.push('O');
    v.push('R');
    assert(v@ =~= or_word());
    v
}

fn and_chars() -> (v: Vec<char>)
    ensures
        v@ == and_word(),
{
    let mut v = Vec::new();
    v.push('A');
    v.push('N');
    v.push('D');
    assert(v@ =~= and_word());
    v
}

fn equals_chars() -> (v: Vec<char>)
    ensures
        v@ == equals_sign(),
{
    let mut v = Vec::new();
    v.push('=');
    v.push('=');
    assert(v@ =~= equals_sign());
    v
}

/// The condition that `lo..hi` of `src` denotes.
fn parse_range(src: &str, cs: &Vec<char>, lo: usize, hi: usize) -> (c: Condition)
    requires
        cs@ == src@,
        lo <= hi <= cs@.len(),
        cond_parses(cs@.subrange(lo as int, hi as int)),
    ensures
        cond_model(c) == parse_cond(cs@.subrange(lo as int, hi as int)),
    decreases hi - lo,
{
    let ghost s = cs@.subrange(lo as int, hi as int);
    let (a0, b0) = strip_range(cs, lo, hi, 0);
    let (a, b) = strip_range(cs, a0, b0, 1);
    let ghost c = cs@.subrange(a as int, b as int);
    assert(c == core_of(s));
    proof {
        lemma_core_len(s);
    }
    // NOT
    if a < b && cs[a] == '!' {
        assert(c[0] == '!');
        let a2 = skip_front(cs, a, b, 2);
        let (x, y) = strip_range(cs, a2, b, 0);
        proof {
            lemma_negated_len(c);
        }
        assert(cs@.subrange(x as int, y as int) == negated_of(c));
        let inner = parse_range(src, cs, x, y);
        return Condition::Not(Box::new(inner));
    }
    // OR, then AND
    let or_pat = or_chars();
    let and_pat = and_chars();
    let is_or = find_in(cs, a, b, &or_pat).is_some();
    if is_or || find_in(cs, a, b, &and_pat).is_some() {
        let pat = if is_or { or_pat } else { and_pat };
        assert(pat@ == joiner(is_or));
        assert(has_pattern(c, joiner(is_or)));
        let parts = split_range(cs, a, b, &pat);
        proof {
            lemma_split_on_lengths(c, joiner(is_or));
        }
        let ghost pv = split_on(c, joiner(is_or));
        assert(ranges_view(cs@, parts@) == pv);
        let n = parts.len();
        assert(pieces_parse(s, is_or, n as int));
        assert(cs@.subrange(parts@[0].0 as int, parts@[0].1 as int) == pv[0]);
        proof {
            lemma_pieces_parse_prefix(s, is_or, n as int, 1);
        }
        let mut condition = parse_range(src, cs, parts[0].0, parts[0].1);
        for k in 1..n
            invariant
                cs@ == src@,
                n == parts@.len(),
                n == pv.len(),
                n >= 2,
                lo <= a <= b <= hi <= cs@.len(),
                s == cs@.subrange(lo as int, hi as int),
                c == core_of(s),
                c.len() <= hi - lo,
                joiner(is_or).len() > 0,
                has_pattern(c, joiner(is_or)),
                pv == split_on(core_of(s), joiner(is_or)),
                ranges_view(cs@, parts@) == pv,
                ranges_within(parts@, a as int, b as int),
                forall|q: int| 0 <= q < pv.len() ==> (#[trigger] pv[q]).len() + joiner(is_or).len() <= c.len(),
                pieces_parse(s, is_or, n as int),
                cond_model(condition) == joined(s, is_or, k as int),
        {
            assert(cs@.subrange(parts@[k as int].0 as int, parts@[k as int].1 as int) == pv[k as int]);
            proof {
                lemma_pieces_parse_prefix(s, is_or, n as int, k + 1);
            }
            assert(pv[k as int].len() == parts@[k as int].1 - parts@[k as int].0);
            assert(parts@[k as int].1 - parts@[k as int].0 < hi - lo);
            let right = parse_range(src, cs, parts[k].0, parts[k].1);
            condition = if is_or {
                Condition::Or(Box::new(condition), Box::new(right))
            } else {
                Condition::And(Box::new(condition), Box::new(right))
            };
        }
        return condition;
    }
    // EQUAL
    let eq_pat = equals_chars();
    let parts = split_range(cs, a, b, &eq_pat);
    proof {
        lemma_split_on_lengths(c, equals_sign());
    }
    assert(cs@.subrange(parts@[0].0 as int, parts@[0].1 as int) == split_on(c, equals_sign())[0]);
    assert(cs@.subrange(parts@[1].0 as int, parts@[1].1 as int) == split_on(c, equals_sign())[1]);
    let (f0, f1) = strip_range(cs, parts[0].0, parts[0].1, 0);
    let field = text_of(src, cs, f0, f1);
    let (v0, v1) = strip_range(cs, parts[1].0, parts[1].1, 0);
    let value = text_without_quotes(src, cs, v0, v1);
    Condition::Equal(field, Value::String(value))
}

/// Whether `lo..hi` of `cs` denotes a condition.
fn range_parses(cs: &Vec<char>, lo: usize, hi: usize) -> (ok: bool)
    requires
        lo <= hi <= cs@.len(),
    ensures
        ok == cond_parses(cs@.subrange(lo as int, hi as int)),
    decreases hi - lo,
{
    let ghost s = cs@.subrange(lo as int, hi as int);
    let (a0, b0) = strip_range(cs, lo, hi, 0);
    let (a, b) = strip_range(cs, a0, b0, 1);
    let ghost c = cs@.subrange(a as int, b as int);
    assert(c == core_of(s));
    proof {
        lemma_core_len(s);
    }
    if a < b && cs[a] == '!' {
        assert(c[0] == '!');
        let a2 = skip_front(cs, a, b, 2);
        let (x, y) = strip_range(cs, a2, b, 0);
        proof {
            lemma_negated_len(c);
        }
        assert(cs@.subrange(x as int, y as int) == negated_of(c));
        return range_parses(cs, x, y);
    }
    let or_pat = or_chars();
    let and_pat = and_chars();
    let is_or = find_in(cs, a, b, &or_pat).is_some();
    if is_or || find_in(cs, a, b, &and_pat).is_some() {
        let pat = if is_or { or_pat } else { and_pat };
        assert(pat@ == joiner(is_or));
        let parts = split_range(cs, a, b, &pat);
        proof {
            lemma_split_on_lengths(c, joiner(is_or));
        }
        let ghost pv = split_on(c, joiner(is_or));
        let n = parts.len();
        let mut ok = true;
        for k in 0..n
            invariant
                n == parts@.len(),
                n == pv.len(),
                lo <= a <= b <= hi <= cs@.len(),
                s == cs@.subrange(lo as int, hi as int),
                c == core_of(s),
                c.len() <= hi - lo,
                joiner(is_or).len() > 0,
                has_pattern(c, joiner(is_or)),
                pv == split_on(core_of(s), joiner(is_or)),
                ranges_view(cs@, parts@) == pv,
                ranges_within(parts@, a as int, b as int),
                forall|q: int| 0 <= q < pv.len() ==> (#[trigger] pv[q]).len() + joiner(is_or).len() <= c.len(),
                ok == pieces_parse(s, is_or, k as int),
        {
            assert(cs@.subrange(parts@[k as int].0 as int, parts@[k as int].1 as int) == pv[k as int]);
            assert(pv[k as int].len() == parts@[k as int].1 - parts@[k as int].0);
            let piece_ok = range_parses(cs, parts[k].0, parts[k].1);
            ok = ok && piece_ok;
        }
        return ok;
    }
    let eq_pat = equals_chars();
    find_in(cs, a, b, &eq_pat).is_some()
}

/// Whether `input` is the text of a query.
pub fn is_query_text(input: &str) -> (ok: bool)
    ensures
        ok == query_parses(input@),
{
    let cs = chars_of(input);
    let n = cs.len();
    let ghost s = input@;
    assert(cs@.subrange(0, n as int) =~= s);
    let sections = split_range(&cs, 0, n, &group_by_chars());
    proof {
        lemma_split_on_lengths(s, group_by_words());
    }
    if sections.len() < 2 {
        return false;
    }
    assert(cs@.subrange(sections@[0].0 as int, sections@[0].1 as int) == sections_of(s)[0]);
    assert(cs@.subrange(sections@[1].0 as int, sections@[1].1 as int) == sections_of(s)[1]);
    let (a, b) = strip_range(&cs, sections[0].0, sections[0].1, 0);
    assert(cs@.subrange(a as int, b as int) == filter_part(s));
    if b - a < 6 {
        return false;
    }
    let filter = filter_chars();
    assert(cs@.subrange(a as int, b as int).take(6) =~= cs@.subrange(a as int, a + 6));
    if !matches_at(&cs, a, a + 6, &filter) {
        return false;
    }
    let (g, h) = strip_range(&cs, sections[1].0, sections[1].1, 0);
    let parts = words_range(&cs, g, h);
    assert(ranges_view(cs@, parts@) == tail_words(s));
    if parts.len() < 3 {
        return false;
    }
    assert(cs@.subrange(parts@[1].0 as int, parts@[1].1 as int) == tail_words(s)[1]);
    let known = range_is(&cs, parts[1].0, parts[1].1, &count_chars())
        || range_is(&cs, parts[1].0, parts[1].1, &sum_chars())
        || range_is(&cs, parts[1].0, parts[1].1, &average_chars());
    if !known {
        return false;
    }
    assert(cs@.subrange(a as int, b as int).skip(6) =~= cs@.subrange(a + 6, b as int));
    let (c0, d0) = strip_range(&cs, a + 6, b, 0);
    let (c, d) = strip_range(&cs, c0, d0, 1);
    assert(cs@.subrange(c as int, d as int) == condition_text(s));
    range_parses(&cs, c, d)
}

/// The query that `input` denotes, or `None` when it is not a query text.
pub fn try_parse_query(input: String) -> (q: Option<Query>)
    ensures
        q is Some <==> query_parses(input@),
        q matches Some(x) ==> query_model(x) == parse_query(input@),
{
    if is_query_text(input.as_str()) {
        Some(parse_query_from_string(input))
    } else {
        None
    }
}

/// The condition that `cond_str` denotes.
pub fn parse_condition(cond_str: &str) -> (c: Condition)
    requires
        cond_parses(cond_str@),
    ensures
        cond_model(c) == parse_cond(cond_str@),
{
    let cs = chars_of(cond_str);
    assert(cs@.subrange(0, cs@.len() as int) =~= cs@);
    parse_range(cond_str, &cs, 0, cs.len())
}


/// The sections of a query text around `GROUP BY`.
pub open spec fn sections_of(s: Seq<char>) -> Seq<Seq<char>> {
    split_on(s, group_by_words())
}

/// The filter part of a query text, trimmed.
pub open spec fn filter_part(s: Seq<char>) -> Seq<char> {
    trim(sections_of(s)[0])
}

/// The condition text of a query: after `FILTER`, trimmed of white space and
/// then of parentheses.
pub open spec fn condition_text(s: Seq<char>) -> Seq<char> {
    strip(trim(filter_part(s).skip(6)), 1)
}

/// The words after `GROUP BY`.
pub open spec fn tail_words(s: Seq<char>) -> Seq<Seq<char>> {
    words(trim(sections_of(s)[1]))
}

/// Whether `s` is the text of a query: it has `GROUP BY`, its filter part
/// starts with `FILTER` and denotes a condition, and `GROUP BY` is followed
/// by a column, `COUNT`, `SUM` or `AVERAGE`, and a column.
pub open spec fn query_parses(s: Seq<char>) -> bool {
    let f = filter_part(s);
    let parts = tail_words(s);
    &&& sections_of(s).len() >= 2
    &&& f.len() >= 6 && f.take(6) == filter_word()
    &&& parts.len() >= 3
    &&& (parts[1] == count_word() || parts[1] == sum_word() || parts[1] == average_word())
    &&& cond_parses(condition_text(s))
}

/// The query that `s` denotes.
pub open spec fn parse_query(s: Seq<char>) -> QueryModel {
    let parts = tail_words(s);
    QueryModel {
        filter: parse_cond(condition_text(s)),
        group_by: parts[0],
        aggregate: if parts[1] == count_word() {
            AggModel::Count(parts[2])
        } else if parts[1] == sum_word() {
            AggModel::Sum(parts[2])
        } else {
            AggModel::Average(parts[2])
        },
    }
}

/// A text with `GROUP BY`, a filter part that starts with `FILTER` and holds
/// a condition, and at least three words after `GROUP BY` is a query exactly
/// when its second word is `COUNT`, `SUM` or `AVERAGE`; the query groups by
/// the first word and applies the aggregation that the second word names to
/// the column that the third word names.
pub proof fn law_every_aggregation_word_is_accepted(s: Seq<char>)
    requires
        sections_of(s).len() >= 2,
        filter_part(s).len() >= 6,
        filter_part(s).take(6) == filter_word(),
        tail_words(s).len() >= 3,
        cond_parses(condition_text(s)),
    ensures
        query_parses(s) <==> (tail_words(s)[1] == count_word() || tail_words(s)[1] == sum_word()
            || tail_words(s)[1] == average_word()),
        tail_words(s)[1] == count_word() ==> query_parses(s)
            && parse_query(s).aggregate == AggModel::Count(tail_words(s)[2]),
        tail_words(s)[1] == sum_word() ==> query_parses(s)
            && parse_query(s).aggregate == AggModel::Sum(tail_words(s)[2]),
        tail_words(s)[1] == average_word() ==> query_parses(s)
            && parse_query(s).aggregate == AggModel::Average(tail_words(s)[2]),
        parse_query(s).group_by == tail_words(s)[0],
        parse_query(s).filter == parse_cond(condition_text(s)),
{
    assert(count_word() != sum_word());
    assert(count_word() != average_word());
    assert(sum_word() != average_word()) by {
        assert(sum_word().len() != average_word().len());
    }
    assert(count_word().len() != sum_word().len());
}

fn group_by_chars() -> (v: Vec<char>)
    ensures
        v@ == group_by_words(),
{
    let mut v = Vec::new();
    v.push('G');
    v.push('R');
    v.push('O');
    v.push('U');
    v.push('P');
    v.push(' ');
    v.push('B');
    v.push('Y');
    assert(v@ =~= group_by_words());
    v
}

fn filter_chars() -> (v: Vec<char>)
    ensures
        v@ == filter_word(),
{
    let mut v = Vec::new();
    v.push('F');
    v.push('I');
    v.push('L');
    v.push('T');
    v.push('E');
    v.push('R');
    assert(v@ =~= filter_word());
    v
}

fn average_chars() -> (v: Vec<char>)
    ensures
        v@ == average_word(),
{
    let mut v = Vec::new();
    v.push('A');
    v.push('V');
    v.push('E');
    v.push('R');
    v.push('A');
    v.push('G');
    v.push('E');
    assert(v@ =~= average_word());
    v
}

fn count_chars() -> (v: Vec<char>)
    ensures
        v@ == count_word(),
{
    let mut v = Vec::new();
    v.push('C');
    v.push('O');
    v.push('U');
    v.push('N');
    v.push('T');
    assert(v@ =~= count_word());
    v
}

fn sum_chars() -> (v: Vec<char>)
    ensures
        v@ == sum_word(),
{
    let mut v = Vec::new();
    v.push('S');
    v.push('U');
    v.push('M');
    assert(v@ =~= sum_word());
    v
}

/// Whether `x..y` of `cs` is the word `w`.
fn range_is(cs: &Vec<char>, x: usize, y: usize, w: &Vec<char>) -> (r: bool)
    requires
        x <= y <= cs@.len(),
    ensures
        r == (cs@.subrange(x as int, y as int) == w@),
{
    if y - x != w.len() {
        return false;
    }
    matches_at(cs, x, y, w)
}

/// The query that `input` denotes.
pub fn parse_query_from_string(input: String) -> (q: Query)
    requires
        query_parses(input@),
    ensures
        query_model(q) == parse_query(input@),
{
    let src = input.as_str();
    let cs = chars_of(src);
    let n = cs.len();
    let ghost s = input@;
    assert(cs@.subrange(0, n as int) =~= s);
    let sections = split_range(&cs, 0, n, &group_by_chars());
    assert(cs@.subrange(sections@[0].0 as int, sections@[0].1 as int) == sections_of(s)[0]);
    assert(cs@.subrange(sections@[1].0 as int, sections@[1].1 as int) == sections_of(s)[1]);
    // The filter part: after `FILTER`, trimmed of white space, then of parentheses.
    let (a, b) = strip_range(&cs, sections[0].0, sections[0].1, 0);
    assert(cs@.subrange(a as int, b as int) == filter_part(s));
    assert(cs@.subrange(a as int, b as int).skip(6) =~= cs@.subrange(a + 6, b as int));
    let (c0, d0) = strip_range(&cs, a + 6, b, 0);
    let (c, d) = strip_range(&cs, c0, d0, 1);
    assert(cs@.subrange(c as int, d as int) == condition_text(s));
    // The words after `GROUP BY`.
    let (g, h) = strip_range(&cs, sections[1].0, sections[1].1, 0);
    let parts = words_range(&cs, g, h);
    assert(ranges_view(cs@, parts@) == tail_words(s));
    assert(cs@.subrange(parts@[0].0 as int, parts@[0].1 as int) == tail_words(s)[0]);
    assert(cs@.subrange(parts@[1].0 as int, parts@[1].1 as int) == tail_words(s)[1]);
    assert(cs@.subrange(parts@[2].0 as int, parts@[2].1 as int) == tail_words(s)[2]);
    let group_by = text_of(src, &cs, parts[0].0, parts[0].1);
    let column = text_of(src, &cs, parts[2].0, parts[2].1);
    let aggregation = if range_is(&cs, parts[1].0, parts[1].1, &count_chars()) {
        Aggregation::Count(column)
    } else if range_is(&cs, parts[1].0, parts[1].1, &sum_chars()) {
        Aggregation::Sum(column)
    } else {
        Aggregation::Average(column)
    };
    let filter = parse_range(src, &cs, c, d);
    Query::new(filter, group_by, aggregation)
}

} // verus!
