//! Text scanning over the characters of a string: trimming, searching,
//! splitting into pieces and into words.
use vstd::prelude::*;

verus! {

/// Whether `c` is a Unicode white-space character.
pub open spec fn is_ws(c: char) -> bool {
    let u = c as u32;
    (0x9 <= u && u <= 0xd) || u == 0x20 || u == 0x85 || u == 0xa0 || u == 0x1680 || (0x2000 <= u
        && u <= 0x200a) || u == 0x2028 || u == 0x2029 || u == 0x202f || u == 0x205f || u == 0x3000
}

/// The classes of characters that are trimmed: white space, parentheses, `!`.
pub open spec fn in_class(c: char, class: u8) -> bool {
    if class == 0 {
        is_ws(c)
    } else if class == 1 {
        c == '(' || c == ')'
    } else {
        c == '!'
    }
}

/// `x` without its leading characters of `class`.
pub open spec fn strip_front(x: Seq<char>, class: u8) -> Seq<char>
    decreases x.len(),
{
    if x.len() > 0 && in_class(x[0], class) {
        strip_front(x.drop_first(), class)
    } else {
        x
    }
}

/// `x` without its trailing characters of `class`.
pub open spec fn strip_back(x: Seq<char>, class: u8) -> Seq<char>
    decreases x.len(),
{
    if x.len() > 0 && in_class(x.last(), class) {
        strip_back(x.drop_last(), class)
    } else {
        x
    }
}

/// `x` without its leading and trailing characters of `class`.
pub open spec fn strip(x: Seq<char>, class: u8) -> Seq<char> {
    strip_back(strip_front(x, class), class)
}

/// `x` without leading and trailing white space.
pub open spec fn trim(x: Seq<char>) -> Seq<char> {
    strip(x, 0)
}

/// The first position at or after `i` where `pat` occurs in `x`, or -1.
pub open spec fn find_from(x: Seq<char>, pat: Seq<char>, i: int) -> int
    decreases x.len() + 1 - i,
{
    if i < 0 || i + pat.len() > x.len() {
        -1
    } else if x.subrange(i, i + pat.len()) == pat {
        i
    } else {
        find_from(x, pat, i + 1)
    }
}

/// Whether `pat` occurs in `x`.
pub open spec fn has_pattern(x: Seq<char>, pat: Seq<char>) -> bool {
    find_from(x, pat, 0) >= 0
}

/// The pieces of `x` between the occurrences of `pat`, found left to right
/// without overlap.
pub open spec fn split_on(x: Seq<char>, pat: Seq<char>) -> Seq<Seq<char>>
    decreases x.len(),
{
    if pat.len() == 0 || find_from(x, pat, 0) < 0 {
        seq![x]
    } else {
        let i = find_from(x, pat, 0);
        proof {
            lemma_find_from_bounds(x, pat, 0);
        }
        seq![x.subrange(0, i)] + split_on(x.subrange(i + pat.len(), x.len() as int), pat)
    }
}

/// The number of leading characters of `x` that are not white space.
pub open spec fn word_len(x: Seq<char>) -> int
    decreases x.len(),
{
    if x.len() == 0 || is_ws(x[0]) {
        0
    } else {
        1 + word_len(x.drop_first())
    }
}

/// The words of `x`: its maximal runs of characters that are not white space.
pub open spec fn words(x: Seq<char>) -> Seq<Seq<char>>
    decreases x.len(),
{
    let t = strip_front(x, 0);
    proof {
        lemma_strip_front(x, 0);
        lemma_word_len(t);
    }
    if t.len() == 0 {
        Seq::empty()
    } else {
        seq![t.take(word_len(t))] + words(t.skip(word_len(t)))
    }
}

/// `x` without its `"` characters.
pub open spec fn without_quotes(x: Seq<char>) -> Seq<char>
    decreases x.len(),
{
    if x.len() == 0 {
        x
    } else if x.last() == '"' {
        without_quotes(x.drop_last())
    } else {
        without_quotes(x.drop_last()).push(x.last())
    }
}

pub proof fn lemma_find_from_bounds(x: Seq<char>, pat: Seq<char>, i: int)
    ensures
        find_from(x, pat, i) >= 0 ==> i <= find_from(x, pat, i) && find_from(x, pat, i) + pat.len() <= x.len(),
        find_from(x, pat, i) >= 0 ==> x.subrange(find_from(x, pat, i), find_from(x, pat, i) + pat.len()) == pat,
        find_from(x, pat, i) < 0 ==> find_from(x, pat, i) == -1,
    decreases x.len() + 1 - i,
{
    if !(i < 0 || i + pat.len() > x.len()) && x.subrange(i, i + pat.len()) != pat {
        lemma_find_from_bounds(x, pat, i + 1);
    }
}

pub proof fn lemma_strip_front(x: Seq<char>, class: u8)
    ensures
        strip_front(x, class).len() <= x.len(),
        strip_front(x, class) == x.subrange(x.len() - strip_front(x, class).len(), x.len() as int),
        strip_front(x, class).len() > 0 ==> !in_class(strip_front(x, class)[0], class),
    decreases x.len(),
{
    if x.len() > 0 && in_class(x[0], class) {
        lemma_strip_front(x.drop_first(), class);
        let r = strip_front(x.drop_first(), class);
        assert(x.drop_first().subrange(x.drop_first().len() - r.len(), x.drop_first().len() as int)
            =~= x.subrange(x.len() - r.len(), x.len() as int));
    } else {
        assert(x.subrange(0, x.len() as int) =~= x);
    }
}

pub proof fn lemma_strip_back(x: Seq<char>, class: u8)
    ensures
        strip_back(x, class).len() <= x.len(),
        strip_back(x, class) == x.subrange(0, strip_back(x, class).len() as int),
    decreases x.len(),
{
    if x.len() > 0 && in_class(x.last(), class) {
        lemma_strip_back(x.drop_last(), class);
        let r = strip_back(x.drop_last(), class);
        assert(x.drop_last().subrange(0, r.len() as int) =~= x.subrange(0, r.len() as int));
    } else {
        assert(x.subrange(0, x.len() as int) =~= x);
    }
}

pub proof fn lemma_word_len(x: Seq<char>)
    ensures
        0 <= word_len(x) <= x.len(),
        x.len() > 0 && !is_ws(x[0]) ==> word_len(x) >= 1,
    decreases x.len(),
{
    if x.len() > 0 && !is_ws(x[0]) {
        lemma_word_len(x.drop_first());
    }
}

/// Every piece is no longer than `x`, and no longer than `x` less the
/// pattern when the pattern occurs.
pub proof fn lemma_split_on_lengths(x: Seq<char>, pat: Seq<char>)
    ensures
        split_on(x, pat).len() >= 1,
        forall|k: int| 0 <= k < split_on(x, pat).len() ==> (#[trigger] split_on(x, pat)[k]).len() <= x.len(),
        pat.len() > 0 && has_pattern(x, pat) ==> split_on(x, pat).len() >= 2,
        pat.len() > 0 && has_pattern(x, pat) ==> forall|k: int|
            0 <= k < split_on(x, pat).len() ==> (#[trigger] split_on(x, pat)[k]).len() + pat.len() <= x.len(),
    decreases x.len(),
{
    if pat.len() > 0 && find_from(x, pat, 0) >= 0 {
        let i = find_from(x, pat, 0);
        lemma_find_from_bounds(x, pat, 0);
        let rest = x.subrange(i + pat.len(), x.len() as int);
        lemma_split_on_lengths(rest, pat);
        let r = split_on(x, pat);
        assert forall|k: int| 0 <= k < r.len() implies (#[trigger] r[k]).len() + pat.len() <= x.len() by {
            if k > 0 {
                assert(r[k] == split_on(rest, pat)[k - 1]);
            }
        }
    }
}

/// Whether `c` belongs to `class`.
pub fn char_in_class(c: char, class: u8) -> (r: bool)
    ensures
        r == in_class(c, class),
{
    if class == 0 {
        let u = c as u32;
        (0x9 <= u && u <= 0xd) || u == 0x20 || u == 0x85 || u == 0xa0 || u == 0x1680 || (0x2000
            <= u && u <= 0x200a) || u == 0x2028 || u == 0x2029 || u == 0x202f || u == 0x205f || u
            == 0x3000
    } else if class == 1 {
        c == '(' || c == ')'
    } else {
        c == '!'
    }
}

/// The characters of `s`.
pub fn chars_of(s: &str) -> (cs: Vec<char>)
    ensures
        cs@ == s@,
{
    let n = s.unicode_len();
    let mut cs: Vec<char> = Vec::new();
    for i in 0..n
        invariant
            n == s@.len(),
            cs@ == s@.take(i as int),
    {
        cs.push(s.get_char(i));
        assert(cs@ =~= s@.take(i + 1));
    }
    assert(s@.take(n as int) =~= s@);
    cs
}

/// The range `lo'..hi` left of `lo..hi` once its leading characters of
/// `class` are skipped.
pub fn skip_front(cs: &Vec<char>, lo: usize, hi: usize, class: u8) -> (r: usize)
    requires
        lo <= hi <= cs@.len(),
    ensures
        lo <= r <= hi,
        cs@.subrange(r as int, hi as int) == strip_front(cs@.subrange(lo as int, hi as int), class),
{
    let mut i = lo;
    while i < hi && char_in_class(cs[i], class)
        invariant
            lo <= i <= hi <= cs@.len(),
            strip_front(cs@.subrange(i as int, hi as int), class) == strip_front(cs@.subrange(lo as int, hi as int), class),
        decreases hi - i,
    {
        assert(cs@.subrange(i as int, hi as int).drop_first() =~= cs@.subrange(i + 1, hi as int));
        i = i + 1;
    }
    i
}

/// The range `lo..hi'` left of `lo..hi` once its trailing characters of
/// `class` are dropped.
pub fn skip_back(cs: &Vec<char>, lo: usize, hi: usize, class: u8) -> (r: usize)
    requires
        lo <= hi <= cs@.len(),
    ensures
        lo <= r <= hi,
        cs@.subrange(lo as int, r as int) == strip_back(cs@.subrange(lo as int, hi as int), class),
{
    let mut j = hi;
    while j > lo && char_in_class(cs[j - 1], class)
        invariant
            lo <= j <= hi <= cs@.len(),
            strip_back(cs@.subrange(lo as int, j as int), class) == strip_back(cs@.subrange(lo as int, hi as int), class),
        decreases j - lo,
    {
        assert(cs@.subrange(lo as int, j as int).drop_last() =~= cs@.subrange(lo as int, j - 1));
        j = j - 1;
    }
    j
}

/// The range of `lo..hi` without its leading and trailing characters of
/// `class`.
pub fn strip_range(cs: &Vec<char>, lo: usize, hi: usize, class: u8) -> (r: (usize, usize))
    requires
        lo <= hi <= cs@.len(),
    ensures
        lo <= r.0 <= r.1 <= hi,
        cs@.subrange(r.0 as int, r.1 as int) == strip(cs@.subrange(lo as int, hi as int), class),
{
    let a = skip_front(cs, lo, hi, class);
    let b = skip_back(cs, a, hi, class);
    (a, b)
}

/// Whether `pat` occurs in `cs` at `i`, ending by `hi`.
pub fn matches_at(cs: &Vec<char>, i: usize, hi: usize, pat: &Vec<char>) -> (r: bool)
    requires
        i <= hi <= cs@.len(),
    ensures
        r == (i + pat@.len() <= hi && cs@.subrange(i as int, i + pat@.len()) == pat@),
{
    let n = pat.len();
    if n > hi - i {
        return false;
    }
    let mut k: usize = 0;
    while k < n
        invariant
            n == pat@.len(),
            i + n <= hi <= cs@.len(),
            0 <= k <= n,
            forall|q: int| 0 <= q < k ==> cs@[i + q] == pat@[q],
        decreases n - k,
    {
        if cs[i + k] != pat[k] {
            assert(cs@.subrange(i as int, i + n)[k as int] != pat@[k as int]);
            return false;
        }
        k = k + 1;
    }
    assert(cs@.subrange(i as int, i + n) =~= pat@);
    true
}

/// The first position in `lo..hi` where `pat` occurs, counted from `lo`.
pub fn find_in(cs: &Vec<char>, lo: usize, hi: usize, pat: &Vec<char>) -> (r: Option<usize>)
    requires
        lo <= hi <= cs@.len(),
    ensures
        match r {
            Some(i) => lo <= i && find_from(cs@.subrange(lo as int, hi as int), pat@, 0) == i - lo,
            None => find_from(cs@.subrange(lo as int, hi as int), pat@, 0) == -1,
        },
{
    let ghost x = cs@.subrange(lo as int, hi as int);
    let mut i = lo;
    while i <= hi
        invariant
            lo <= i <= hi + 1,
            hi <= cs@.len(),
            x == cs@.subrange(lo as int, hi as int),
            find_from(x, pat@, 0) == find_from(x, pat@, i - lo),
        decreases hi + 1 - i,
    {
        if matches_at(cs, i, hi, pat) {
            assert(x.subrange(i - lo, i - lo + pat@.len()) =~= cs@.subrange(i as int, i + pat@.len()));
            return Some(i);
        }
        proof {
            if i + pat@.len() <= hi {
                assert(x.subrange(i - lo, i - lo + pat@.len()) =~= cs@.subrange(i as int, i + pat@.len()));
            }
        }
        if i == hi {
            proof {
                if pat@.len() == 0 {
                    assert(cs@.subrange(i as int, i as int) =~= pat@);
                }
            }
            return None;
        }
        i = i + 1;
    }
    None
}

/// The view of a list of ranges of `cs`.
pub open spec fn ranges_view(cs: Seq<char>, rs: Seq<(usize, usize)>) -> Seq<Seq<char>> {
    rs.map_values(|r: (usize, usize)| cs.subrange(r.0 as int, r.1 as int))
}

/// Whether every range lies in `lo..hi`.
pub open spec fn ranges_within(rs: Seq<(usize, usize)>, lo: int, hi: int) -> bool {
    forall|k: int| 0 <= k < rs.len() ==> lo <= (#[trigger] rs[k]).0 <= rs[k].1 <= hi
}

/// The pieces of `lo..hi` between the occurrences of `pat`, as ranges.
pub fn split_range(cs: &Vec<char>, lo: usize, hi: usize, pat: &Vec<char>) -> (rs: Vec<(usize, usize)>)
    requires
        lo <= hi <= cs@.len(),
        pat@.len() > 0,
    ensures
        ranges_view(cs@, rs@) == split_on(cs@.subrange(lo as int, hi as int), pat@),
        ranges_within(rs@, lo as int, hi as int),
{
    let mut rs: Vec<(usize, usize)> = Vec::new();
    let mut cur = lo;
    loop
        invariant
            lo <= cur <= hi <= cs@.len(),
            pat@.len() > 0,
            ranges_within(rs@, lo as int, hi as int),
            ranges_view(cs@, rs@) + split_on(cs@.subrange(cur as int, hi as int), pat@)
                == split_on(cs@.subrange(lo as int, hi as int), pat@),
        decreases hi - cur,
    {
        let ghost x = cs@.subrange(cur as int, hi as int);
        match find_in(cs, cur, hi, pat) {
            Some(i) => {
                proof {
                    lemma_find_from_bounds(x, pat@, 0);
                }
                let ghost before = rs@;
                rs.push((cur, i));
                assert(x.subrange(0, i - cur) =~= cs@.subrange(cur as int, i as int));
                assert(x.subrange(i - cur + pat@.len(), x.len() as int) =~= cs@.subrange(i + pat@.len(), hi as int));
                assert(ranges_view(cs@, rs@) =~= ranges_view(cs@, before).push(cs@.subrange(cur as int, i as int)));
                assert(ranges_view(cs@, rs@) + split_on(cs@.subrange(i + pat@.len(), hi as int), pat@)
                    =~= ranges_view(cs@, before) + split_on(x, pat@));
                cur = i + pat.len();
            },
            None => {
                let ghost before = rs@;
                rs.push((cur, hi));
                assert(ranges_view(cs@, rs@) =~= ranges_view(cs@, before) + split_on(x, pat@));
                return rs;
            },
        }
    }
}

/// The words of `lo..hi`, as ranges.
pub fn words_range(cs: &Vec<char>, lo: usize, hi: usize) -> (rs: Vec<(usize, usize)>)
    requires
        lo <= hi <= cs@.len(),
    ensures
        ranges_view(cs@, rs@) == words(cs@.subrange(lo as int, hi as int)),
        ranges_within(rs@, lo as int, hi as int),
{
    let mut rs: Vec<(usize, usize)> = Vec::new();
    let mut cur = lo;
    loop
        invariant
            lo <= cur <= hi <= cs@.len(),
            ranges_within(rs@, lo as int, hi as int),
            ranges_view(cs@, rs@) + words(cs@.subrange(cur as int, hi as int)) == words(cs@.subrange(lo as int, hi as int)),
        decreases hi - cur,
    {
        let ghost x = cs@.subrange(cur as int, hi as int);
        let start = skip_front(cs, cur, hi, 0);
        let ghost t = cs@.subrange(start as int, hi as int);
        proof {
            lemma_strip_front(x, 0);
            lemma_word_len(t);
        }
        if start == hi {
            assert(words(x) =~= Seq::<Seq<char>>::empty());
            assert(ranges_view(cs@, rs@) + Seq::<Seq<char>>::empty() =~= ranges_view(cs@, rs@));
            return rs;
        }
        let mut end = start;
        while end < hi && !char_in_class(cs[end], 0)
            invariant
                start <= end <= hi <= cs@.len(),
                t == cs@.subrange(start as int, hi as int),
                word_len(t) == (end - start) + word_len(cs@.subrange(end as int, hi as int)),
            decreases hi - end,
        {
            assert(cs@.subrange(end as int, hi as int).drop_first() =~= cs@.subrange(end + 1, hi as int));
            end = end + 1;
        }
        assert(word_len(cs@.subrange(end as int, hi as int)) == 0);
        let ghost before = rs@;
        rs.push((start, end));
        assert(t.take(word_len(t)) =~= cs@.subrange(start as int, end as int));
        assert(t.skip(word_len(t)) =~= cs@.subrange(end as int, hi as int));
        assert(ranges_view(cs@, rs@) =~= ranges_view(cs@, before).push(cs@.subrange(start as int, end as int)));
        assert(ranges_view(cs@, rs@) + words(cs@.subrange(end as int, hi as int))
            =~= ranges_view(cs@, before) + words(x));
        cur = end;
    }
}

/// The text of `lo..hi` of `s` without its `"` characters.
pub fn text_without_quotes(s: &str, cs: &Vec<char>, lo: usize, hi: usize) -> (t: String)
    requires
        cs@ == s@,
        lo <= hi <= cs@.len(),
    ensures
        t@ == without_quotes(cs@.subrange(lo as int, hi as int)),
{
    let mut t = String::new();
    for k in lo..hi
        invariant
            cs@ == s@,
            lo <= hi <= cs@.len(),
            t@ == without_quotes(cs@.subrange(lo as int, k as int)),
    {
        assert(cs@.subrange(lo as int, k + 1).drop_last() =~= cs@.subrange(lo as int, k as int));
        if cs[k] != '"' {
            let piece = s.substring_char(k, k + 1);
            assert(piece@ =~= seq![cs@[k as int]]);
            t.append(piece);
            assert(t@ =~= without_quotes(cs@.subrange(lo as int, k + 1)));
        }
    }
    t
}

/// The text of `lo..hi` of `s`.
pub fn text_of(s: &str, cs: &Vec<char>, lo: usize, hi: usize) -> (t: String)
    requires
        cs@ == s@,
        lo <= hi <= cs@.len(),
    ensures
        t@ == cs@.subrange(lo as int, hi as int),
{
    String::from_str(s.substring_char(lo, hi))
}

} // verus!
