use vstd::prelude::*;

verus! {

/// Unicode whitespace, as `char::is_whitespace` defines it.
pub open spec fn is_ws(c: char) -> bool {
    ||| ('\u{9}' <= c && c <= '\u{d}')
    ||| c == ' '
    ||| c == '\u{85}'
    ||| c == '\u{a0}'
    ||| c == '\u{1680}'
    ||| ('\u{2000}' <= c && c <= '\u{200a}')
    ||| c == '\u{2028}'
    ||| c == '\u{2029}'
    ||| c == '\u{202f}'
    ||| c == '\u{205f}'
    ||| c == '\u{3000}'
}

pub fn is_whitespace(c: char) -> (b: bool)
    ensures
        b == is_ws(c),
{
    ('\u{9}' <= c && c <= '\u{d}') || c == ' ' || c == '\u{85}' || c == '\u{a0}' || c
        == '\u{1680}' || ('\u{2000}' <= c && c <= '\u{200a}') || c == '\u{2028}' || c
        == '\u{2029}' || c == '\u{202f}' || c == '\u{205f}' || c == '\u{3000}'
}

/// Collect the characters of a string slice.
pub fn chars_of(s: &str) -> (v: Vec<char>)
    ensures
        v@ == s@,
{
    let mut v: Vec<char> = Vec::new();
    for c in it: s.chars()
        invariant
            v@ == it.seq().take(it.index() as int),
    {
        v.push(c);
    }
    v
}

// ---------------------------------------------------------------------------
// Splitting on a separator character

/// Scanning `s` from the left: the pieces already closed by a separator, and the open piece.
pub open spec fn split_state(s: Seq<char>, sep: char) -> (Seq<Seq<char>>, Seq<char>)
    decreases s.len(),
{
    if s.len() == 0 {
        (Seq::empty(), Seq::empty())
    } else {
        let (done, cur) = split_state(s.drop_last(), sep);
        if s.last() == sep {
            (done.push(cur), Seq::empty())
        } else {
            (done, cur.push(s.last()))
        }
    }
}

/// The pieces of `s` between occurrences of `sep`, as `str::split` gives them.
pub open spec fn split_on(s: Seq<char>, sep: char) -> Seq<Seq<char>> {
    split_state(s, sep).0.push(split_state(s, sep).1)
}

/// Drop one trailing carriage return.
pub open spec fn strip_cr(l: Seq<char>) -> Seq<char> {
    if l.len() > 0 && l.last() == '\r' {
        l.drop_last()
    } else {
        l
    }
}

/// The lines of `s`, as `str::lines` gives them: split on '\n', without a last empty
/// piece; a line ended by '\n' loses one '\r' before it, while a bare '\r' at the very
/// end stays, since only "\r\n" ends a line.
pub open spec fn lines_of(s: Seq<char>) -> Seq<Seq<char>> {
    let (done, cur) = split_state(s, '\n');
    let closed = done.map_values(|l: Seq<char>| strip_cr(l));
    if cur.len() == 0 {
        closed
    } else {
        closed.push(cur)
    }
}

/// Character spans `[begin, end)` of the pieces of `s[lo..hi]` between occurrences of `sep`.
pub fn split_spans(s: &[char], lo: usize, hi: usize, sep: char) -> (spans: Vec<(usize, usize)>)
    requires
        lo <= hi <= s@.len(),
    ensures
        spans@.len() == split_on(s@.subrange(lo as int, hi as int), sep).len(),
        forall|k: int|
            0 <= k < spans@.len() ==> {
                let (b, e) = #[trigger] spans@[k];
                &&& lo <= b <= e <= hi
                &&& s@.subrange(b as int, e as int) == split_on(
                    s@.subrange(lo as int, hi as int),
                    sep,
                )[k]
            },
{
    let ghost t = s@.subrange(lo as int, hi as int);
    let mut spans: Vec<(usize, usize)> = Vec::new();
    let mut begin = lo;
    let mut i = lo;
    while i < hi
        invariant
            lo <= begin <= i <= hi <= s@.len(),
            t == s@.subrange(lo as int, hi as int),
            spans@.len() == split_state(t.take(i - lo), sep).0.len(),
            forall|k: int|
                0 <= k < spans@.len() ==> {
                    let (b, e) = #[trigger] spans@[k];
                    &&& lo <= b <= e <= hi
                    &&& s@.subrange(b as int, e as int) == split_state(
                        t.take(i - lo),
                        sep,
                    ).0[k]
                },
            s@.subrange(begin as int, i as int) == split_state(t.take(i - lo), sep).1,
        decreases hi - i,
    {
        assert(t.take(i + 1 - lo).drop_last() =~= t.take(i - lo));
        if s[i] == sep {
            spans.push((begin, i));
            begin = i + 1;
        }
        i += 1;
        assert(s@.subrange(begin as int, i as int) =~= split_state(t.take(i - lo), sep).1);
    }
    assert(t.take(hi - lo) =~= t);
    spans.push((begin, hi));
    spans
}

/// Character spans of the lines of `s[lo..hi]`.
pub fn line_spans(s: &[char], lo: usize, hi: usize) -> (spans: Vec<(usize, usize)>)
    requires
        lo <= hi <= s@.len(),
    ensures
        spans@.len() == lines_of(s@.subrange(lo as int, hi as int)).len(),
        forall|k: int|
            0 <= k < spans@.len() ==> {
                let (b, e) = #[trigger] spans@[k];
                &&& lo <= b <= e <= hi
                &&& s@.subrange(b as int, e as int) == lines_of(
                    s@.subrange(lo as int, hi as int),
                )[k]
            },
{
    let ghost t = s@.subrange(lo as int, hi as int);
    let raw = split_spans(s, lo, hi, '\n');
    let ghost (done, cur) = split_state(t, '\n');
    let ghost all = if cur.len() == 0 {
        done
    } else {
        done.push(cur)
    };
    let n = if raw.len() > 0 && raw[raw.len() - 1].0 == raw[raw.len() - 1].1 {
        raw.len() - 1
    } else {
        raw.len()
    };
    assert(n == all.len());
    let mut spans: Vec<(usize, usize)> = Vec::new();
    let mut k: usize = 0;
    while k < n
        invariant
            n == all.len(),
            n <= raw@.len(),
            k <= n,
            lo <= hi <= s@.len(),
            all == (if cur.len() == 0 {
                done
            } else {
                done.push(cur)
            }),
            (done, cur) == split_state(t, '\n'),
            t == s@.subrange(lo as int, hi as int),
            raw@.len() == split_on(t, '\n').len(),
            forall|j: int|
                0 <= j < raw@.len() ==> {
                    let (b, e) = #[trigger] raw@[j];
                    &&& lo <= b <= e <= hi
                    &&& s@.subrange(b as int, e as int) == split_on(t, '\n')[j]
                },
            spans@.len() == k,
            forall|j: int|
                0 <= j < k ==> {
                    let (b, e) = #[trigger] spans@[j];
                    &&& lo <= b <= e <= hi
                    &&& s@.subrange(b as int, e as int) == lines_of(t)[j]
                },
        decreases n - k,
    {
        let (b, e) = raw[k];
        assert(s@.subrange(b as int, e as int) == all[k as int]);
        if k + 1 < raw.len() && b < e && s[e - 1] == '\r' {
            assert(s@.subrange(b as int, e - 1) =~= s@.subrange(b as int, e as int).drop_last());
            spans.push((b, e - 1));
            assert(spans@[k as int] == (b, (e - 1) as usize));
        } else {
            spans.push((b, e));
            assert(spans@[k as int] == (b, e));
        }
        assert(s@.subrange(spans@[k as int].0 as int, spans@[k as int].1 as int) == lines_of(
            t,
        )[k as int]);
        k += 1;
    }
    spans
}

// ---------------------------------------------------------------------------
// Splitting on whitespace

/// Scanning `s` from the left: the complete words seen so far, and the open word.
pub open spec fn words_state(s: Seq<char>) -> (Seq<Seq<char>>, Seq<char>)
    decreases s.len(),
{
    if s.len() == 0 {
        (Seq::empty(), Seq::empty())
    } else {
        let (done, cur) = words_state(s.drop_last());
        if is_ws(s.last()) {
            if cur.len() > 0 {
                (done.push(cur), Seq::empty())
            } else {
                (done, Seq::empty())
            }
        } else {
            (done, cur.push(s.last()))
        }
    }
}

/// The non-empty runs of non-whitespace in `s`, as `str::split_whitespace` gives them.
pub open spec fn words_of(s: Seq<char>) -> Seq<Seq<char>> {
    let (done, cur) = words_state(s);
    if cur.len() > 0 {
        done.push(cur)
    } else {
        done
    }
}

/// Character spans of the words of `s[lo..hi]`.
pub fn word_spans(s: &[char], lo: usize, hi: usize) -> (spans: Vec<(usize, usize)>)
    requires
        lo <= hi <= s@.len(),
    ensures
        spans@.len() == words_of(s@.subrange(lo as int, hi as int)).len(),
        forall|k: int|
            0 <= k < spans@.len() ==> {
                let (b, e) = #[trigger] spans@[k];
                &&& lo <= b <= e <= hi
                &&& s@.subrange(b as int, e as int) == words_of(
                    s@.subrange(lo as int, hi as int),
                )[k]
            },
{
    let ghost t = s@.subrange(lo as int, hi as int);
    let mut spans: Vec<(usize, usize)> = Vec::new();
    let mut begin = lo;
    let mut i = lo;
    while i < hi
        invariant
            lo <= begin <= i <= hi <= s@.len(),
            t == s@.subrange(lo as int, hi as int),
            spans@.len() == words_state(t.take(i - lo)).0.len(),
            forall|k: int|
                0 <= k < spans@.len() ==> {
                    let (b, e) = #[trigger] spans@[k];
                    &&& lo <= b <= e <= hi
                    &&& s@.subrange(b as int, e as int) == words_state(t.take(i - lo)).0[k]
                },
            s@.subrange(begin as int, i as int) == words_state(t.take(i - lo)).1,
        decreases hi - i,
    {
        assert(t.take(i + 1 - lo).drop_last() =~= t.take(i - lo));
        if is_whitespace(s[i]) {
            if begin < i {
                spans.push((begin, i));
            }
            begin = i + 1;
        }
        i += 1;
        assert(s@.subrange(begin as int, i as int) =~= words_state(t.take(i - lo)).1);
    }
    assert(t.take(hi - lo) =~= t);
    if begin < hi {
        spans.push((begin, hi));
    }
    spans
}

// ---------------------------------------------------------------------------
// Integers

pub open spec fn is_digit(c: char) -> bool {
    '0' <= c && c <= '9'
}

pub open spec fn all_digits(s: Seq<char>) -> bool {
    forall|i: int| 0 <= i < s.len() ==> is_digit(#[trigger] s[i])
}

/// The number that a string of decimal digits denotes.
pub open spec fn digits_value(s: Seq<char>) -> int
    decreases s.len(),
{
    if s.len() == 0 {
        0
    } else {
        10 * digits_value(s.drop_last()) + (s.last() as int - '0' as int)
    }
}

/// The value of a decimal integer literal with an optional sign, as `from_str` reads it
/// for signed integers; `None` when `s` is no such literal.
pub open spec fn int_literal(s: Seq<char>) -> Option<int> {
    if s.len() > 0 && (s[0] == '+' || s[0] == '-') {
        let d = s.drop_first();
        if d.len() > 0 && all_digits(d) {
            Some(
                if s[0] == '-' {
                    -digits_value(d)
                } else {
                    digits_value(d)
                },
            )
        } else {
            None
        }
    } else if s.len() > 0 && all_digits(s) {
        Some(digits_value(s))
    } else {
        None
    }
}

/// What `<i64 as FromStr>::from_str` gives, as an option.
pub open spec fn lit_i64(s: Seq<char>) -> Option<i64> {
    match int_literal(s) {
        Some(v) => if i64::MIN <= v <= i64::MAX {
            Some(v as i64)
        } else {
            None
        },
        None => None,
    }
}

/// What `from_str` of an unsigned type with maximum `max` gives, as an option:
/// as for signed types, but a leading '-' is refused.
pub open spec fn lit_unsigned(s: Seq<char>, max: int) -> Option<int> {
    if s.len() > 0 && s[0] == '-' {
        None
    } else {
        match int_literal(s) {
            Some(v) => if 0 <= v <= max {
                Some(v)
            } else {
                None
            },
            None => None,
        }
    }
}

proof fn lemma_digits_value_nonneg(s: Seq<char>)
    requires
        all_digits(s),
    ensures
        digits_value(s) >= 0,
    decreases s.len(),
{
    if s.len() > 0 {
        assert(all_digits(s.drop_last()));
        lemma_digits_value_nonneg(s.drop_last());
        assert(is_digit(s[s.len() - 1]));
    }
}

proof fn lemma_digits_value_grows(s: Seq<char>, i: int)
    requires
        all_digits(s),
        0 <= i <= s.len(),
    ensures
        digits_value(s.take(i)) <= digits_value(s),
    decreases s.len() - i,
{
    if i < s.len() {
        lemma_digits_value_grows(s, i + 1);
        assert(s.take(i + 1).drop_last() =~= s.take(i));
        assert(all_digits(s.take(i)));
        lemma_digits_value_nonneg(s.take(i));
        assert(is_digit(s[i]));
    } else {
        assert(s.take(i) =~= s);
    }
}

/// Value of the digits `s[lo..hi]`, or `None` when one is no digit or the value exceeds 2^64.
fn digits_capped(s: &[char], lo: usize, hi: usize) -> (r: Option<u128>)
    requires
        lo <= hi <= s@.len(),
    ensures
        match r {
            Some(v) => all_digits(s@.subrange(lo as int, hi as int)) && v == digits_value(
                s@.subrange(lo as int, hi as int),
            ) && v <= 0x1_0000_0000_0000_0000,
            None => !all_digits(s@.subrange(lo as int, hi as int)) || digits_value(
                s@.subrange(lo as int, hi as int),
            ) > 0x1_0000_0000_0000_0000,
        },
{
    let ghost t = s@.subrange(lo as int, hi as int);
    let mut acc: u128 = 0;
    let mut big = false;
    let mut i = lo;
    while i < hi
        invariant
            lo <= i <= hi <= s@.len(),
            t == s@.subrange(lo as int, hi as int),
            all_digits(t.take(i - lo)),
            !big ==> acc == digits_value(t.take(i - lo)),
            !big ==> acc <= 0x1_0000_0000_0000_0000,
            big ==> digits_value(t.take(i - lo)) > 0x1_0000_0000_0000_0000,
        decreases hi - i,
    {
        let c = s[i];
        if !('0' <= c && c <= '9') {
            assert(t[i - lo] == c);
            return None;
        }
        assert(t.take(i + 1 - lo).drop_last() =~= t.take(i - lo));
        assert(all_digits(t.take(i + 1 - lo)));
        proof {
            lemma_digits_value_nonneg(t.take(i - lo));
        }
        if !big {
            let d = (c as u32 - '0' as u32) as u128;
            acc = acc * 10 + d;
            if acc > 0x1_0000_0000_0000_0000 {
                big = true;
            }
        }
        i += 1;
    }
    assert(t.take(hi - lo) =~= t);
    if big {
        None
    } else {
        Some(acc)
    }
}

/// Parse a decimal literal with an optional sign; `None` when it is no such literal or its
/// magnitude exceeds 2^64.
fn int_literal_capped(s: &[char], lo: usize, hi: usize) -> (r: Option<i128>)
    requires
        lo <= hi <= s@.len(),
    ensures
        match r {
            Some(v) => int_literal(s@.subrange(lo as int, hi as int)) == Some(v as int),
            None => match int_literal(s@.subrange(lo as int, hi as int)) {
                Some(v) => v > 0x1_0000_0000_0000_0000 || v < -0x1_0000_0000_0000_0000,
                None => true,
            },
        },
{
    let ghost t = s@.subrange(lo as int, hi as int);
    if lo == hi {
        return None;
    }
    let c = s[lo];
    if c == '+' || c == '-' {
        if lo + 1 == hi {
            return None;
        }
        assert(t.drop_first() =~= s@.subrange(lo + 1, hi as int));
        match digits_capped(s, lo + 1, hi) {
            Some(v) => {
                if c == '-' {
                    Some(-(v as i128))
                } else {
                    Some(v as i128)
                }
            },
            None => {
                proof {
                    if all_digits(t.drop_first()) {
                        lemma_digits_value_nonneg(t.drop_first());
                    }
                }
                None
            },
        }
    } else {
        match digits_capped(s, lo, hi) {
            Some(v) => Some(v as i128),
            None => None,
        }
    }
}

/// `s[lo..hi]` read as an `i64`, as `<i64 as FromStr>::from_str` reads it.
pub fn parse_i64(s: &[char], lo: usize, hi: usize) -> (r: Option<i64>)
    requires
        lo <= hi <= s@.len(),
    ensures
        r == lit_i64(s@.subrange(lo as int, hi as int)),
{
    match int_literal_capped(s, lo, hi) {
        Some(v) => {
            if i64::MIN as i128 <= v && v <= i64::MAX as i128 {
                Some(v as i64)
            } else {
                None
            }
        },
        None => None,
    }
}

/// `s[lo..hi]` read as an unsigned integer no larger than `max`, as `from_str` reads it.
pub fn parse_unsigned(s: &[char], lo: usize, hi: usize, max: u64) -> (r: Option<u64>)
    requires
        lo <= hi <= s@.len(),
    ensures
        match lit_unsigned(s@.subrange(lo as int, hi as int), max as int) {
            Some(v) => r == Some(v as u64),
            None => r is None,
        },
{
    if lo < hi && s[lo] == '-' {
        return None;
    }
    match int_literal_capped(s, lo, hi) {
        Some(v) => {
            if 0 <= v && v <= max as i128 {
                Some(v as u64)
            } else {
                None
            }
        },
        None => None,
    }
}

// ---------------------------------------------------------------------------
// Splitting on a two-character separator

/// `r` with `cur` prepended to its first piece.
pub open spec fn prepend_first(cur: Seq<char>, r: Seq<Seq<char>>) -> Seq<Seq<char>> {
    r.update(0, cur + r[0])
}

/// The pieces of `s` between occurrences of the separator `x` `y`, matched from the left without
/// overlap, as `str::split` with a two-character pattern gives them.
pub open spec fn split_two(s: Seq<char>, x: char, y: char) -> Seq<Seq<char>>
    decreases s.len(),
{
    if s.len() == 0 {
        seq![Seq::empty()]
    } else if s.len() >= 2 && s[0] == x && s[1] == y {
        seq![Seq::empty()] + split_two(s.skip(2), x, y)
    } else {
        prepend_first(seq![s[0]], split_two(s.drop_first(), x, y))
    }
}

pub proof fn lemma_split_two_nonempty(s: Seq<char>, x: char, y: char)
    ensures
        split_two(s, x, y).len() >= 1,
    decreases s.len(),
{
    if s.len() == 0 {
    } else if s.len() >= 2 && s[0] == x && s[1] == y {
        lemma_split_two_nonempty(s.skip(2), x, y);
    } else {
        lemma_split_two_nonempty(s.drop_first(), x, y);
    }
}

/// Character spans of the pieces of `s` between occurrences of the separator `x` `y`.
pub fn pair_spans(s: &[char], x: char, y: char) -> (spans: Vec<(usize, usize)>)
    ensures
        spans@.len() == split_two(s@, x, y).len(),
        forall|k: int|
            0 <= k < spans@.len() ==> {
                let (b, e) = #[trigger] spans@[k];
                &&& b <= e <= s@.len()
                &&& s@.subrange(b as int, e as int) == split_two(s@, x, y)[k]
            },
{
    let mut spans: Vec<(usize, usize)> = Vec::new();
    let mut begin: usize = 0;
    let mut i: usize = 0;
    proof {
        lemma_split_two_nonempty(s@, x, y);
        assert(s@.skip(0) =~= s@);
        assert(Seq::<char>::empty() + split_two(s@, x, y)[0] =~= split_two(s@, x, y)[0]);
        assert(prepend_first(s@.subrange(0, 0), split_two(s@, x, y)) =~= split_two(s@, x, y));
        assert(spans@.map_values(|p: (usize, usize)| s@.subrange(p.0 as int, p.1 as int))
            =~= Seq::<Seq<char>>::empty());
    }
    while i < s.len()
        invariant
            begin <= i <= s@.len(),
            split_two(s@, x, y) == spans@.map_values(
                |p: (usize, usize)| s@.subrange(p.0 as int, p.1 as int),
            ) + prepend_first(s@.subrange(begin as int, i as int), split_two(s@.skip(i as int), x, y)),
            forall|k: int|
                0 <= k < spans@.len() ==> (#[trigger] spans@[k]).0 <= spans@[k].1 <= s@.len(),
        decreases s@.len() - i,
    {
        let ghost done = spans@.map_values(|p: (usize, usize)| s@.subrange(p.0 as int, p.1 as int));
        let ghost rest = s@.skip(i as int);
        proof {
            lemma_split_two_nonempty(rest, x, y);
        }
        if i + 1 < s.len() && s[i] == x && s[i + 1] == y {
            proof {
                assert(rest.skip(2) =~= s@.skip(i + 2));
                lemma_split_two_nonempty(s@.skip(i + 2), x, y);
                let cur = s@.subrange(begin as int, i as int);
                assert(split_two(rest, x, y) == seq![Seq::<char>::empty()] + split_two(s@.skip(i + 2), x, y));
                assert(prepend_first(cur, split_two(rest, x, y)) =~= seq![cur] + prepend_first(
                    Seq::empty(),
                    split_two(s@.skip(i + 2), x, y),
                ));
            }
            spans.push((begin, i));
            proof {
                let cur = s@.subrange(begin as int, i as int);
                assert(spans@.map_values(|p: (usize, usize)| s@.subrange(p.0 as int, p.1 as int))
                    =~= done.push(cur));
                assert(s@.subrange((i + 2) as int, (i + 2) as int) =~= Seq::<char>::empty());
            }
            i = i + 2;
            begin = i;
        } else {
            proof {
                assert(rest.drop_first() =~= s@.skip(i + 1));
                lemma_split_two_nonempty(s@.skip(i + 1), x, y);
                let cur = s@.subrange(begin as int, i as int);
                assert(s@.subrange(begin as int, i + 1) =~= cur + seq![s@[i as int]]);
                let r = split_two(s@.skip(i + 1), x, y);
                assert(rest[0] == s@[i as int]);
                assert(split_two(rest, x, y) == prepend_first(seq![s@[i as int]], r));
                assert(cur + (seq![s@[i as int]] + r[0]) =~= (cur + seq![s@[i as int]]) + r[0]);
                assert(prepend_first(cur, split_two(rest, x, y)) =~= prepend_first(
                    s@.subrange(begin as int, i + 1),
                    split_two(s@.skip(i + 1), x, y),
                ));
            }
            i = i + 1;
        }
    }
    proof {
        assert(s@.skip(i as int) =~= Seq::<char>::empty());
        let done = spans@.map_values(|p: (usize, usize)| s@.subrange(p.0 as int, p.1 as int));
        assert(prepend_first(s@.subrange(begin as int, i as int), split_two(s@.skip(i as int), x, y))
            =~= seq![s@.subrange(begin as int, i as int)]);
    }
    spans.push((begin, i));
    proof {
        let done = spans@.map_values(|p: (usize, usize)| s@.subrange(p.0 as int, p.1 as int));
        assert forall|k: int| 0 <= k < spans@.len() implies {
            let (b, e) = #[trigger] spans@[k];
            &&& b <= e <= s@.len()
            &&& s@.subrange(b as int, e as int) == split_two(s@, x, y)[k]
        } by {
            assert(done[k] == s@.subrange(spans@[k].0 as int, spans@[k].1 as int));
        }
    }
    spans
}

/// The blocks of `s` separated by blank lines: pieces between occurrences of "\n\n".
pub open spec fn split_blank(s: Seq<char>) -> Seq<Seq<char>> {
    split_two(s, '\n', '\n')
}

/// Character spans of the pieces of `s` between occurrences of "\n\n".
pub fn blank_spans(s: &[char]) -> (spans: Vec<(usize, usize)>)
    ensures
        spans@.len() == split_blank(s@).len(),
        forall|k: int|
            0 <= k < spans@.len() ==> {
                let (b, e) = #[trigger] spans@[k];
                &&& b <= e <= s@.len()
                &&& s@.subrange(b as int, e as int) == split_blank(s@)[k]
            },
{
    pair_spans(s, '\n', '\n')
}

// ---------------------------------------------------------------------------
// Trimming

/// `s` without leading and trailing whitespace, as `str::trim` gives it.
pub open spec fn trim(s: Seq<char>) -> Seq<char>
    decreases s.len(),
{
    if s.len() > 0 && is_ws(s[0]) {
        trim(s.drop_first())
    } else if s.len() > 0 && is_ws(s.last()) {
        trim(s.drop_last())
    } else {
        s
    }
}

/// Span of `s[lo..hi]` without leading and trailing whitespace.
pub fn trim_span(s: &[char], lo: usize, hi: usize) -> (r: (usize, usize))
    requires
        lo <= hi <= s@.len(),
    ensures
        lo <= r.0 <= r.1 <= hi,
        s@.subrange(r.0 as int, r.1 as int) == trim(s@.subrange(lo as int, hi as int)),
{
    let mut b = lo;
    while b < hi && is_whitespace(s[b])
        invariant
            lo <= b <= hi <= s@.len(),
            trim(s@.subrange(lo as int, hi as int)) == trim(s@.subrange(b as int, hi as int)),
        decreases hi - b,
    {
        assert(s@.subrange(b as int, hi as int).drop_first() =~= s@.subrange(b + 1, hi as int));
        b += 1;
    }
    let mut e = hi;
    while e > b && is_whitespace(s[e - 1])
        invariant
            lo <= b <= e <= hi <= s@.len(),
            b == hi || !is_ws(s@[b as int]),
            trim(s@.subrange(lo as int, hi as int)) == trim(s@.subrange(b as int, e as int)),
        decreases e - b,
    {
        assert(s@.subrange(b as int, e as int).drop_last() =~= s@.subrange(b as int, e - 1));
        e -= 1;
    }
    (b, e)
}

/// What `<isize as FromStr>::from_str` gives, as an option.
pub open spec fn lit_isize(s: Seq<char>) -> Option<isize> {
    match int_literal(s) {
        Some(v) => if isize::MIN <= v <= isize::MAX {
            Some(v as isize)
        } else {
            None
        },
        None => None,
    }
}

/// `s[lo..hi]` read as an `isize`, as `<isize as FromStr>::from_str` reads it.
pub fn parse_isize(s: &[char], lo: usize, hi: usize) -> (r: Option<isize>)
    requires
        lo <= hi <= s@.len(),
    ensures
        r == lit_isize(s@.subrange(lo as int, hi as int)),
{
    match parse_i64(s, lo, hi) {
        Some(v) => {
            if isize::MIN as i64 <= v && v <= isize::MAX as i64 {
                Some(v as isize)
            } else {
                None
            }
        },
        None => None,
    }
}

/// Two integers separated by a ',', as an index.
pub open spec fn isize_pair(s: Seq<char>) -> Option<(isize, isize)> {
    let f = split_on(s, ',');
    if f.len() == 2 && lit_isize(f[0]) is Some && lit_isize(f[1]) is Some {
        Some((lit_isize(f[0])->0, lit_isize(f[1])->0))
    } else {
        None
    }
}

/// `s[lo..hi]` read as two integers separated by a ','.
pub fn parse_isize_pair(s: &[char], lo: usize, hi: usize) -> (r: Option<(isize, isize)>)
    requires
        lo <= hi <= s@.len(),
    ensures
        r == isize_pair(s@.subrange(lo as int, hi as int)),
{
    let f = split_spans(s, lo, hi, ',');
    if f.len() != 2 {
        return None;
    }
    let (b0, e0) = f[0];
    let (b1, e1) = f[1];
    match (parse_isize(s, b0, e0), parse_isize(s, b1, e1)) {
        (Some(x), Some(y)) => Some((x, y)),
        _ => None,
    }
}

} // verus!
