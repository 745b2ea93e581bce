//! Character-level text utilities shared by the parsers and report builders.
//!
//! Every scanner here works on a window `[lo, hi)` of one character vector, and
//! is specified against a plain function on `Seq<char>` (trimming, searching,
//! splitting, decimal parsing and printing).
use vstd::prelude::*;

verus! {

// ---------------------------------------------------------------------------
// Specifications
// ---------------------------------------------------------------------------

/// The Unicode `White_Space` property, which is what `char::is_whitespace`
/// (and therefore `str::trim`) tests.
pub open spec fn is_white(c: char) -> bool {
    let u = c as u32;
    ||| 9 <= u <= 13
    ||| u == 32
    ||| u == 0x85
    ||| u == 0xA0
    ||| u == 0x1680
    ||| 0x2000 <= u <= 0x200A
    ||| u == 0x2028
    ||| u == 0x2029
    ||| u == 0x202F
    ||| u == 0x205F
    ||| u == 0x3000
}

/// `s` without its leading white space.
pub open spec fn trim_start(s: Seq<char>) -> Seq<char>
    decreases s.len(),
{
    if s.len() > 0 && is_white(s[0]) {
        trim_start(s.drop_first())
    } else {
        s
    }
}

/// `s` without its trailing white space.
pub open spec fn trim_end(s: Seq<char>) -> Seq<char>
    decreases s.len(),
{
    if s.len() > 0 && is_white(s.last()) {
        trim_end(s.drop_last())
    } else {
        s
    }
}

/// `s` without leading and trailing white space (`str::trim`).
pub open spec fn trim(s: Seq<char>) -> Seq<char> {
    trim_end(trim_start(s))
}

/// Index of the first occurrence of `c` in `s`.
pub open spec fn find_char(s: Seq<char>, c: char) -> Option<int>
    decreases s.len(),
{
    if s.len() == 0 {
        None
    } else if s[0] == c {
        Some(0)
    } else {
        match find_char(s.drop_first(), c) {
            Some(i) => Some(i + 1),
            None => None,
        }
    }
}

/// `s` cut at every occurrence of `c` (`str::split` with a character pattern).
pub open spec fn split_char(s: Seq<char>, c: char) -> Seq<Seq<char>>
    decreases s.len(),
{
    match find_char(s, c) {
        None => seq![s],
        Some(i) => {
            proof {
                lemma_find_char(s, c);
            }
            seq![s.take(i)] + split_char(s.skip(i + 1), c)
        },
    }
}

/// `p` is a prefix of `s`.
pub open spec fn has_prefix(s: Seq<char>, p: Seq<char>) -> bool {
    p.len() <= s.len() && s.take(p.len() as int) == p
}

/// An ASCII decimal digit.
pub open spec fn is_digit(c: char) -> bool {
    48 <= (c as u32) <= 57
}

/// Value of an ASCII digit.
pub open spec fn digit_value(c: char) -> nat {
    ((c as u32) - 48) as nat
}

/// Value of a string of decimal digits, most significant first.
pub open spec fn digits_value(s: Seq<char>) -> nat
    decreases s.len(),
{
    if s.len() == 0 {
        0
    } else {
        digits_value(s.drop_last()) * 10 + digit_value(s.last())
    }
}

pub open spec fn all_digits(s: Seq<char>) -> bool {
    forall|i: int| 0 <= i < s.len() ==> #[trigger] is_digit(s[i])
}

/// The digits that `u64::from_str` reads: `s` without one optional leading `+`.
pub open spec fn unsigned_body(s: Seq<char>) -> Seq<char> {
    if s.len() > 0 && s[0] == '+' {
        s.drop_first()
    } else {
        s
    }
}

/// What `s.parse::<u64>()` gives: an optional `+`, then at least one decimal
/// digit and nothing else, whose value fits in a `u64`.
pub open spec fn parse_u64(s: Seq<char>) -> Option<u64> {
    let body = unsigned_body(s);
    if body.len() > 0 && all_digits(body) && digits_value(body) <= u64::MAX {
        Some(digits_value(body) as u64)
    } else {
        None
    }
}

/// The ten decimal digit characters.
pub open spec fn digit_chars() -> Seq<char> {
    seq!['0', '1', '2', '3', '4', '5', '6', '7', '8', '9']
}

/// Decimal representation of `n` without leading zeros.
pub open spec fn decimal(n: nat) -> Seq<char>
    decreases n,
{
    if n < 10 {
        seq![digit_chars()[n as int]]
    } else {
        decimal(n / 10) + seq![digit_chars()[(n % 10) as int]]
    }
}

/// `parts` joined with `sep` between consecutive elements.
pub open spec fn join(parts: Seq<Seq<char>>, sep: Seq<char>) -> Seq<char>
    decreases parts.len(),
{
    if parts.len() == 0 {
        seq![]
    } else if parts.len() == 1 {
        parts[0]
    } else {
        join(parts.drop_last(), sep) + sep + parts.last()
    }
}

// ---------------------------------------------------------------------------
// Lemmas
// ---------------------------------------------------------------------------

/// A found index lies inside `s`, holds `c`, and no earlier position does.
pub proof fn lemma_find_char(s: Seq<char>, c: char)
    ensures
        match find_char(s, c) {
            Some(i) => 0 <= i < s.len() && s[i] == c && forall|j: int| 0 <= j < i ==> s[j] != c,
            None => forall|j: int| 0 <= j < s.len() ==> s[j] != c,
        },
    decreases s.len(),
{
    if s.len() > 0 && s[0] != c {
        lemma_find_char(s.drop_first(), c);
        match find_char(s.drop_first(), c) {
            Some(i) => {
                assert forall|j: int| 0 <= j < i + 1 implies s[j] != c by {
                    if j > 0 {
                        assert(s[j] == s.drop_first()[j - 1]);
                    }
                }
            },
            None => {
                assert forall|j: int| 0 <= j < s.len() implies s[j] != c by {
                    if j > 0 {
                        assert(s[j] == s.drop_first()[j - 1]);
                    }
                }
            },
        }
    }
}

/// `find_char` is the least index holding `c`.
pub proof fn lemma_find_char_from_facts(s: Seq<char>, c: char, i: int)
    requires
        0 <= i < s.len(),
        s[i] == c,
        forall|j: int| 0 <= j < i ==> s[j] != c,
    ensures
        find_char(s, c) == Some(i),
    decreases s.len(),
{
    if i > 0 {
        assert forall|j: int| 0 <= j < i - 1 implies s.drop_first()[j] != c by {
            assert(s.drop_first()[j] == s[j + 1]);
        }
        lemma_find_char_from_facts(s.drop_first(), c, i - 1);
    }
}

/// `find_char` is `None` exactly when `c` does not occur.
pub proof fn lemma_find_char_none(s: Seq<char>, c: char)
    requires
        forall|j: int| 0 <= j < s.len() ==> s[j] != c,
    ensures
        find_char(s, c) == None::<int>,
    decreases s.len(),
{
    if s.len() > 0 {
        assert forall|j: int| 0 <= j < s.len() - 1 implies s.drop_first()[j] != c by {
            assert(s.drop_first()[j] == s[j + 1]);
        }
        lemma_find_char_none(s.drop_first(), c);
    }
}

/// Splitting always yields at least one piece.
pub proof fn lemma_split_char_nonempty(s: Seq<char>, c: char)
    ensures
        split_char(s, c).len() >= 1,
    decreases s.len(),
{
    lemma_find_char(s, c);
    if let Some(i) = find_char(s, c) {
        lemma_split_char_nonempty(s.skip(i + 1), c);
    }
}

/// A longer run of digits never has a smaller value than its prefix.
pub proof fn lemma_digits_value_prefix(s: Seq<char>, k: int)
    requires
        0 <= k <= s.len(),
    ensures
        digits_value(s.take(k)) <= digits_value(s),
    decreases s.len(),
{
    if k < s.len() {
        assert(s.drop_last().take(k) =~= s.take(k));
        lemma_digits_value_prefix(s.drop_last(), k);
    } else {
        assert(s.take(k) =~= s);
    }
}

// ---------------------------------------------------------------------------
// Executable scanners
// ---------------------------------------------------------------------------

/// Collects the characters of `s` into a vector.
pub fn chars_of(s: &str) -> (res: Vec<char>)
    ensures
        res@ == s@,
{
    let mut res: Vec<char> = Vec::new();
    for c in it: s.chars()
        invariant
            res@ == it.seq().take(it.index() as int),
            it.seq() == s@,
    {
        res.push(c);
    }
    res
}

/// Whether `c` is white space (`char::is_whitespace`).
pub fn is_white_char(c: char) -> (res: bool)
    ensures
        res == is_white(c),
{
    let u = c as u32;
    (9 <= u && u <= 13) || u == 32 || u == 0x85 || u == 0xA0 || u == 0x1680 || (0x2000 <= u && u
        <= 0x200A) || u == 0x2028 || u == 0x2029 || u == 0x202F || u == 0x205F || u == 0x3000
}

/// Start of the window `[lo, hi)` after skipping leading white space.
pub fn skip_white(v: &Vec<char>, lo: usize, hi: usize) -> (r: usize)
    requires
        lo <= hi <= v.len(),
    ensures
        lo <= r <= hi,
        v@.subrange(r as int, hi as int) == trim_start(v@.subrange(lo as int, hi as int)),
{
    let mut i = lo;
    while i < hi && is_white_char(v[i])
        invariant
            lo <= i <= hi <= v.len(),
            trim_start(v@.subrange(i as int, hi as int)) == trim_start(
                v@.subrange(lo as int, hi as int),
            ),
        decreases hi - i,
    {
        assert(v@.subrange(i as int, hi as int).drop_first() =~= v@.subrange(i + 1, hi as int));
        i = i + 1;
    }
    i
}

/// End of the window `[lo, hi)` after dropping trailing white space.
pub fn drop_white_end(v: &Vec<char>, lo: usize, hi: usize) -> (r: usize)
    requires
        lo <= hi <= v.len(),
    ensures
        lo <= r <= hi,
        v@.subrange(lo as int, r as int) == trim_end(v@.subrange(lo as int, hi as int)),
{
    let mut j = hi;
    while j > lo && is_white_char(v[j - 1])
        invariant
            lo <= j <= hi <= v.len(),
            trim_end(v@.subrange(lo as int, j as int)) == trim_end(
                v@.subrange(lo as int, hi as int),
            ),
        decreases j - lo,
    {
        assert(v@.subrange(lo as int, j as int).drop_last() =~= v@.subrange(lo as int, j - 1));
        j = j - 1;
    }
    j
}

/// The window `[lo, hi)` trimmed at both ends.
pub fn trim_window(v: &Vec<char>, lo: usize, hi: usize) -> (r: (usize, usize))
    requires
        lo <= hi <= v.len(),
    ensures
        lo <= r.0 <= r.1 <= hi,
        v@.subrange(r.0 as int, r.1 as int) == trim(v@.subrange(lo as int, hi as int)),
{
    let a = skip_white(v, lo, hi);
    let b = drop_white_end(v, a, hi);
    (a, b)
}

/// First position of `c` in the window `[lo, hi)`.
pub fn find_in(v: &Vec<char>, lo: usize, hi: usize, c: char) -> (r: Option<usize>)
    requires
        lo <= hi <= v.len(),
    ensures
        match r {
            Some(p) => lo <= p < hi && find_char(v@.subrange(lo as int, hi as int), c) == Some(
                p - lo,
            ),
            None => find_char(v@.subrange(lo as int, hi as int), c) == None::<int>,
        },
{
    let ghost w = v@.subrange(lo as int, hi as int);
    let mut i = lo;
    while i < hi
        invariant
            lo <= i <= hi <= v.len(),
            w == v@.subrange(lo as int, hi as int),
            forall|j: int| lo <= j < i ==> v@[j] != c,
        decreases hi - i,
    {
        if v[i] == c {
            proof {
                assert forall|j: int| 0 <= j < i - lo implies w[j] != c by {
                    assert(w[j] == v@[lo + j]);
                }
                lemma_find_char_from_facts(w, c, i - lo);
            }
            return Some(i);
        }
        i = i + 1;
    }
    proof {
        assert forall|j: int| 0 <= j < w.len() implies w[j] != c by {
            assert(w[j] == v@[lo + j]);
        }
        lemma_find_char_none(w, c);
    }
    None
}

/// Whether the window `[lo, hi)` starts with `p`.
pub fn window_has_prefix(v: &Vec<char>, lo: usize, hi: usize, p: &Vec<char>) -> (r: bool)
    requires
        lo <= hi <= v.len(),
    ensures
        r == has_prefix(v@.subrange(lo as int, hi as int), p@),
{
    let ghost w = v@.subrange(lo as int, hi as int);
    if p.len() > hi - lo {
        return false;
    }
    let mut k: usize = 0;
    while k < p.len()
        invariant
            k <= p.len() <= hi - lo,
            lo <= hi <= v.len(),
            w == v@.subrange(lo as int, hi as int),
            forall|j: int| 0 <= j < k ==> v@[lo + j] == p@[j],
        decreases p.len() - k,
    {
        if v[lo + k] != p[k] {
            assert(w.take(p.len() as int)[k as int] != p@[k as int]);
            return false;
        }
        k = k + 1;
    }
    assert(w.take(p.len() as int) =~= p@);
    true
}

/// End of the first piece of the window `[lo, hi)` when cut at `c`: either
/// the position of the first `c`, or `hi` when `c` does not occur.
pub fn next_piece(v: &Vec<char>, lo: usize, hi: usize, c: char) -> (end: usize)
    requires
        lo <= hi <= v.len(),
    ensures
        lo <= end <= hi,
        end == hi ==> split_char(v@.subrange(lo as int, hi as int), c) == seq![
            v@.subrange(lo as int, hi as int),
        ],
        end < hi ==> v@[end as int] == c && split_char(v@.subrange(lo as int, hi as int), c) == seq![
            v@.subrange(lo as int, end as int),
        ] + split_char(v@.subrange(end + 1, hi as int), c),
{
    let ghost w = v@.subrange(lo as int, hi as int);
    match find_in(v, lo, hi, c) {
        None => hi,
        Some(p) => {
            proof {
                lemma_find_char(w, c);
            }
            assert(w.take(p - lo) =~= v@.subrange(lo as int, p as int));
            assert(w.skip(p - lo + 1) =~= v@.subrange(p + 1, hi as int));
            p
        },
    }
}

/// Where the window `[lo, hi)` splits into exactly two pieces at `c`: the
/// position of the single separator.
pub fn split_pair(v: &Vec<char>, lo: usize, hi: usize, c: char) -> (r: Option<usize>)
    requires
        lo <= hi <= v.len(),
    ensures
        ({
            let parts = split_char(v@.subrange(lo as int, hi as int), c);
            match r {
                Some(p) => {
                    &&& lo <= p < hi
                    &&& parts.len() == 2
                    &&& parts[0] == v@.subrange(lo as int, p as int)
                    &&& parts[1] == v@.subrange(p + 1, hi as int)
                },
                None => parts.len() != 2,
            }
        }),
{
    let ghost w = v@.subrange(lo as int, hi as int);
    match find_in(v, lo, hi, c) {
        None => {
            assert(split_char(w, c) == seq![w]);
            None
        },
        Some(p) => {
            let ghost rest = w.skip(p - lo + 1);
            assert(rest =~= v@.subrange(p + 1, hi as int));
            assert(w.take(p - lo) =~= v@.subrange(lo as int, p as int));
            let second = find_in(v, p + 1, hi, c);
            assert(split_char(w, c) == seq![w.take(p - lo)] + split_char(rest, c));
            match second {
                None => {
                    assert(split_char(rest, c) == seq![rest]);
                    assert(split_char(w, c).len() == 2);
                    Some(p)
                },
                Some(q) => {
                    proof {
                        lemma_find_char(rest, c);
                        lemma_split_char_nonempty(rest.skip(q - p), c);
                    }
                    assert(split_char(rest, c).len() >= 2);
                    None
                },
            }
        },
    }
}

/// `s.parse::<u64>()` on the window `[lo, hi)`.
pub fn parse_u64_window(v: &Vec<char>, lo: usize, hi: usize) -> (r: Option<u64>)
    requires
        lo <= hi <= v.len(),
    ensures
        r == parse_u64(v@.subrange(lo as int, hi as int)),
{
    let ghost w = v@.subrange(lo as int, hi as int);
    let start = if lo < hi && v[lo] == '+' {
        lo + 1
    } else {
        lo
    };
    let ghost body = unsigned_body(w);
    assert(body =~= v@.subrange(start as int, hi as int));
    if start == hi {
        return None;
    }
    let mut acc: u64 = 0;
    let mut i = start;
    while i < hi
        invariant
            lo <= start <= i <= hi <= v.len(),
            w == v@.subrange(lo as int, hi as int),
            body == unsigned_body(w),
            body == v@.subrange(start as int, hi as int),
            all_digits(body.take(i - start)),
            acc as nat == digits_value(body.take(i - start)),
        decreases hi - i,
    {
        let c = v[i];
        assert(body[i - start] == c);
        let cu = c as u32;
        if !(48 <= cu && cu <= 57) {
            assert(!is_digit(body[i - start]));
            assert(!all_digits(body));
            return None;
        }
        let d = (cu - 48) as u64;
        assert(body.take(i - start + 1).drop_last() =~= body.take(i - start));
        assert(body.take(i - start + 1).last() == c);
        if acc > (u64::MAX - d) / 10 {
            proof {
                assert(digit_value(c) == d);
                assert(digits_value(body.take(i - start + 1)) == acc * 10 + d);
                assert(acc * 10 + d > u64::MAX) by (nonlinear_arith)
                    requires
                        acc > (u64::MAX - d) / 10,
                        d <= 9,
                ;
                lemma_digits_value_prefix(body, i - start + 1);
            }
            return None;
        }
        assert(acc * 10 + d <= u64::MAX) by (nonlinear_arith)
            requires
                acc <= (u64::MAX - d) / 10,
                d <= 9,
        ;
        acc = acc * 10 + d;
        assert forall|j: int| 0 <= j < i - start + 1 implies #[trigger] is_digit(
            body.take(i - start + 1)[j],
        ) by {
            if j < i - start {
                assert(body.take(i - start + 1)[j] == body.take(i - start)[j]);
            }
        }
        i = i + 1;
    }
    assert(body.take(hi - start) =~= body);
    Some(acc)
}

// ---------------------------------------------------------------------------
// Executable builders
// ---------------------------------------------------------------------------

/// The single-character string of decimal digit `d`.
pub fn digit_str(d: usize) -> (r: &'static str)
    requires
        d < 10,
    ensures
        r@ == seq![digit_chars()[d as int]],
{
    let all = "0123456789";
    proof {
        reveal_strlit("0123456789");
    }
    assert(all@ =~= digit_chars());
    let r = all.substring_char(d, d + 1);
    assert(r@ =~= seq![digit_chars()[d as int]]);
    r
}

/// Decimal representation of `n`.
pub fn decimal_string(n: u128) -> (r: String)
    ensures
        r@ == decimal(n as nat),
    decreases n,
{
    if n < 10 {
        String::from_str(digit_str(n as usize))
    } else {
        let head = decimal_string(n / 10);
        head.concat(digit_str((n % 10) as usize))
    }
}

/// A fresh string holding the window `[lo, hi)` of `s`, whose characters are `v`.
pub fn window_string(s: &str, v: &Vec<char>, lo: usize, hi: usize) -> (r: String)
    requires
        v@ == s@,
        lo <= hi <= v.len(),
    ensures
        r@ == v@.subrange(lo as int, hi as int),
{
    String::from_str(s.substring_char(lo, hi))
}


/// Views of a sequence of strings.
pub open spec fn string_views(v: Seq<String>) -> Seq<Seq<char>> {
    v.map_values(|l: String| l@)
}

/// The strings of `lines` joined with `sep` between consecutive ones.
pub fn join_lines(lines: &Vec<String>, sep: &str) -> (r: String)
    ensures
        r@ == join(string_views(lines@), sep@),
{
    let ghost views = string_views(lines@);
    let mut r = String::new();
    if lines.len() == 0 {
        return r;
    }
    r.append(lines[0].as_str());
    assert(views.take(1) =~= seq![views[0]]);
    let mut k: usize = 1;
    while k < lines.len()
        invariant
            1 <= k <= lines.len(),
            views == string_views(lines@),
            r@ == join(views.take(k as int), sep@),
        decreases lines.len() - k,
    {
        r.append(sep);
        r.append(lines[k].as_str());
        assert(views.take(k + 1).drop_last() =~= views.take(k as int));
        k = k + 1;
    }
    assert(views.take(lines.len() as int) =~= views);
    r
}

/// The texts of the windows `bounds` of `v`.
pub open spec fn window_views(v: Seq<char>, bounds: Seq<(usize, usize)>) -> Seq<Seq<char>> {
    bounds.map_values(|b: (usize, usize)| v.subrange(b.0 as int, b.1 as int))
}

/// The windows of the pieces of `[lo, hi)` when it is cut at every `c`.
pub fn piece_bounds(v: &Vec<char>, lo: usize, hi: usize, c: char) -> (r: Vec<(usize, usize)>)
    requires
        lo <= hi <= v.len(),
    ensures
        window_views(v@, r@) == split_char(v@.subrange(lo as int, hi as int), c),
        forall|k: int| 0 <= k < r@.len() ==> lo <= #[trigger] r@[k].0 <= r@[k].1 <= hi,
{
    let mut r: Vec<(usize, usize)> = Vec::new();
    let mut start: usize = lo;
    loop
        invariant
            lo <= start <= hi <= v.len(),
            window_views(v@, r@) + split_char(v@.subrange(start as int, hi as int), c)
                == split_char(v@.subrange(lo as int, hi as int), c),
            forall|k: int| 0 <= k < r@.len() ==> lo <= #[trigger] r@[k].0 <= r@[k].1 <= hi,
        decreases hi - start,
    {
        let end = next_piece(v, start, hi, c);
        let ghost before = r@;
        r.push((start, end));
        assert(window_views(v@, r@) =~= window_views(v@, before).push(
            v@.subrange(start as int, end as int),
        ));
        if end == hi {
            assert(window_views(v@, r@) =~= window_views(v@, before) + split_char(
                v@.subrange(start as int, hi as int),
                c,
            ));
            return r;
        }
        assert(window_views(v@, r@) + split_char(v@.subrange(end + 1, hi as int), c)
            =~= window_views(v@, before) + split_char(v@.subrange(start as int, hi as int), c));
        start = end + 1;
    }
}

} // verus!
