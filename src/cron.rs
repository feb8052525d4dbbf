use vstd::prelude::*;
use crate::ident::{chars_of, is_ascii_digit};

verus! {

pub open spec fn is_blank(c: char) -> bool {
    c == ' ' || c == '\t'
}

/// The maximal runs of non-blank characters of `s`, in order.
pub open spec fn words(s: Seq<char>) -> Seq<Seq<char>>
    decreases s.len(),
{
    if s.len() == 0 {
        Seq::empty()
    } else {
        let w = words(s.drop_last());
        let c = s.last();
        if is_blank(c) {
            w
        } else if s.len() >= 2 && !is_blank(s[s.len() - 2]) {
            w.update(w.len() - 1, w.last().push(c))
        } else {
            w.push(seq![c])
        }
    }
}

/// The pieces of `s` between occurrences of `sep` (always at least one).
pub open spec fn split_on(s: Seq<char>, sep: char) -> Seq<Seq<char>>
    decreases s.len(),
{
    if s.len() == 0 {
        seq![Seq::empty()]
    } else {
        let p = split_on(s.drop_last(), sep);
        let c = s.last();
        if c == sep {
            p.push(Seq::empty())
        } else {
            p.update(p.len() - 1, p.last().push(c))
        }
    }
}

pub open spec fn digit_val(c: char) -> int {
    (c as int) - ('0' as int)
}

/// A cron number: one or two decimal digits.
pub open spec fn is_num(t: Seq<char>) -> bool {
    (t.len() == 1 || t.len() == 2) && forall|i: int| 0 <= i < t.len() ==> is_ascii_digit(#[trigger] t[i])
}

pub open spec fn num_val(t: Seq<char>) -> int {
    if t.len() == 1 {
        digit_val(t[0])
    } else {
        10 * digit_val(t[0]) + digit_val(t[1])
    }
}

pub open spec fn num_in(t: Seq<char>, lo: int, hi: int) -> bool {
    is_num(t) && lo <= num_val(t) && num_val(t) <= hi
}

/// `*`, a number, or a range `a-b` with `a <= b`, all within `lo..=hi`.
pub open spec fn base_ok(b: Seq<char>, lo: int, hi: int) -> bool {
    let r = split_on(b, '-');
    ||| b == seq!['*']
    ||| (r.len() == 1 && num_in(r[0], lo, hi))
    ||| (r.len() == 2 && num_in(r[0], lo, hi) && num_in(r[1], lo, hi) && num_val(r[0])
        <= num_val(r[1]))
}

/// A base, optionally followed by `/step` with a step of at least one.
pub open spec fn item_ok(t: Seq<char>, lo: int, hi: int) -> bool {
    let p = split_on(t, '/');
    ||| (p.len() == 1 && base_ok(p[0], lo, hi))
    ||| (p.len() == 2 && base_ok(p[0], lo, hi) && is_num(p[1]) && num_val(p[1]) >= 1)
}

/// A comma-separated list of items.
pub open spec fn field_ok(f: Seq<char>, lo: int, hi: int) -> bool {
    let items = split_on(f, ',');
    forall|i: int| 0 <= i < items.len() ==> item_ok(#[trigger] items[i], lo, hi)
}

pub open spec fn field_lo(i: int) -> int {
    if i == 2 || i == 3 { 1 } else { 0 }
}

pub open spec fn field_hi(i: int) -> int {
    if i == 0 {
        59
    } else if i == 1 {
        23
    } else if i == 2 {
        31
    } else if i == 3 {
        12
    } else {
        7
    }
}

/// A POSIX cron expression: five blank-separated fields, for minute, hour,
/// day of month, month and day of week.
pub open spec fn is_cron(s: Seq<char>) -> bool {
    let w = words(s);
    w.len() == 5 && forall|i: int| 0 <= i < 5 ==> field_ok(#[trigger] w[i], field_lo(i), field_hi(i))
}

proof fn lemma_words_nonempty(s: Seq<char>)
    requires
        s.len() > 0,
        !is_blank(s.last()),
    ensures
        words(s).len() > 0,
    decreases s.len(),
{
    if s.len() >= 2 && !is_blank(s[s.len() - 2]) {
        lemma_words_nonempty(s.drop_last());
    }
}

pub open spec fn views(v: Seq<Vec<char>>) -> Seq<Seq<char>> {
    v.map_values(|p: Vec<char>| p@)
}

/// Splits `s` into its blank-separated words.
pub fn split_words(s: &Vec<char>) -> (r: Vec<Vec<char>>)
    ensures
        views(r@) == words(s@),
{
    let mut r: Vec<Vec<char>> = Vec::new();
    let mut i: usize = 0;
    while i < s.len()
        invariant
            i <= s@.len(),
            views(r@) == words(s@.subrange(0, i as int)),
        decreases s@.len() - i,
    {
        let c = s[i];
        let ghost pre = s@.subrange(0, i as int);
        let ghost next = s@.subrange(0, i + 1);
        assert(next.drop_last() == pre);
        assert(next.last() == c);
        if c == ' ' || c == '\t' {
        } else if i >= 1 && !(s[i - 1] == ' ' || s[i - 1] == '\t') {
            assert(next[next.len() - 2] == s@[i - 1]);
            assert(pre.last() == s@[i - 1]);
            proof { lemma_words_nonempty(pre); }
            let last = r.len() - 1;
            let mut w = r.remove(last);
            w.push(c);
            r.push(w);
            assert(views(r@) =~= words(next));
        } else {
            let mut w: Vec<char> = Vec::new();
            w.push(c);
            r.push(w);
            assert(w@ =~= seq![c]);
            assert(views(r@) =~= words(next));
        }
        i = i + 1;
    }
    assert(s@.subrange(0, s@.len() as int) == s@);
    r
}

/// Splits `s` at each occurrence of `sep`.
pub fn split_at_char(s: &Vec<char>, sep: char) -> (r: Vec<Vec<char>>)
    ensures
        views(r@) == split_on(s@, sep),
{
    let mut r: Vec<Vec<char>> = Vec::new();
    r.push(Vec::new());
    let mut i: usize = 0;
    assert(views(r@) =~= split_on(s@.subrange(0, 0), sep));
    while i < s.len()
        invariant
            i <= s@.len(),
            r@.len() > 0,
            views(r@) == split_on(s@.subrange(0, i as int), sep),
        decreases s@.len() - i,
    {
        let c = s[i];
        let ghost pre = s@.subrange(0, i as int);
        let ghost next = s@.subrange(0, i + 1);
        assert(next.drop_last() == pre);
        assert(next.last() == c);
        if c == sep {
            r.push(Vec::new());
            assert(views(r@) =~= split_on(next, sep));
        } else {
            let last = r.len() - 1;
            let mut w = r.remove(last);
            w.push(c);
            r.push(w);
            assert(views(r@) =~= split_on(next, sep));
        }
        i = i + 1;
    }
    assert(s@.subrange(0, s@.len() as int) == s@);
    r
}

/// The value of `t` if it is a cron number.
pub fn parse_num(t: &Vec<char>) -> (r: Option<u32>)
    ensures
        r is Some <==> is_num(t@),
        r matches Some(v) ==> v as int == num_val(t@),
{
    if t.len() == 0 || t.len() > 2 {
        return None;
    }
    let a = t[0];
    if !('0' <= a && a <= '9') {
        return None;
    }
    let va = (a as u32) - ('0' as u32);
    if t.len() == 1 {
        return Some(va);
    }
    let b = t[1];
    if !('0' <= b && b <= '9') {
        assert(!is_ascii_digit(t@[1]));
        return None;
    }
    let vb = (b as u32) - ('0' as u32);
    Some(10 * va + vb)
}

fn num_within(t: &Vec<char>, lo: u32, hi: u32) -> (r: Option<u32>)
    ensures
        r is Some <==> num_in(t@, lo as int, hi as int),
        r matches Some(v) ==> v as int == num_val(t@),
{
    match parse_num(t) {
        Some(v) => if lo <= v && v <= hi { Some(v) } else { None },
        None => None,
    }
}

fn check_base(b: &Vec<char>, lo: u32, hi: u32) -> (r: bool)
    ensures
        r == base_ok(b@, lo as int, hi as int),
{
    if b.len() == 1 && b[0] == '*' {
        assert(b@ =~= seq!['*']);
        return true;
    }
    assert(b@ != seq!['*']);
    let r = split_at_char(b, '-');
    if r.len() == 1 {
        num_within(&r[0], lo, hi).is_some()
    } else if r.len() == 2 {
        match (num_within(&r[0], lo, hi), num_within(&r[1], lo, hi)) {
            (Some(a), Some(c)) => a <= c,
            _ => false,
        }
    } else {
        false
    }
}

fn check_item(t: &Vec<char>, lo: u32, hi: u32) -> (r: bool)
    ensures
        r == item_ok(t@, lo as int, hi as int),
{
    let p = split_at_char(t, '/');
    if p.len() == 1 {
        check_base(&p[0], lo, hi)
    } else if p.len() == 2 {
        if !check_base(&p[0], lo, hi) {
            return false;
        }
        match parse_num(&p[1]) {
            Some(v) => v >= 1,
            None => false,
        }
    } else {
        false
    }
}

fn check_field(f: &Vec<char>, lo: u32, hi: u32) -> (r: bool)
    ensures
        r == field_ok(f@, lo as int, hi as int),
{
    let items = split_at_char(f, ',');
    let mut i: usize = 0;
    while i < items.len()
        invariant
            views(items@) == split_on(f@, ','),
            i <= items@.len(),
            forall|j: int| 0 <= j < i ==> item_ok(#[trigger] split_on(f@, ',')[j], lo as int, hi as int),
        decreases items@.len() - i,
    {
        if !check_item(&items[i], lo, hi) {
            assert(split_on(f@, ',')[i as int] == items@[i as int]@);
            return false;
        }
        assert(split_on(f@, ',')[i as int] == items@[i as int]@);
        i = i + 1;
    }
    true
}

/// Whether `s` is a valid five-field POSIX cron expression.
pub fn valid_cron(s: &str) -> (r: bool)
    ensures
        r == is_cron(s@),
{
    let cs = chars_of(s);
    let w = split_words(&cs);
    if w.len() != 5 {
        return false;
    }
    let los: [u32; 5] = [0, 0, 1, 1, 0];
    let his: [u32; 5] = [59, 23, 31, 12, 7];
    let mut i: usize = 0;
    while i < 5
        invariant
            views(w@) == words(s@),
            w@.len() == 5,
            i <= 5,
            los@ == seq![0u32, 0, 1, 1, 0],
            his@ == seq![59u32, 23, 31, 12, 7],
            forall|j: int| 0 <= j < i ==> field_ok(#[trigger] words(s@)[j], field_lo(j), field_hi(j)),
        decreases 5 - i,
    {
        assert(words(s@)[i as int] == w@[i as int]@);
        assert(los@[i as int] as int == field_lo(i as int));
        assert(his@[i as int] as int == field_hi(i as int));
        if !check_field(&w[i], los[i], his[i]) {
            return false;
        }
        i = i + 1;
    }
    true
}

} // verus!
