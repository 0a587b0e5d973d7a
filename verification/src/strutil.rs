//! Character and string helpers shared by the identifier parser and the
//! schema engine: whitespace trimming, character search, splitting,
//! canonical decimal numbers, and lexicographic ordering.

use vstd::prelude::*;
use vstd::string::*;

verus! {

/// The Unicode `White_Space` code points, which `str::trim` removes at
/// the ends of a string.
pub open spec fn is_ws_char(c: char) -> bool {
    ||| (0x09 <= c as u32 && c as u32 <= 0x0d)
    ||| c as u32 == 0x20
    ||| c as u32 == 0x85
    ||| c as u32 == 0xa0
    ||| c as u32 == 0x1680
    ||| (0x2000 <= c as u32 && c as u32 <= 0x200a)
    ||| c as u32 == 0x2028
    ||| c as u32 == 0x2029
    ||| c as u32 == 0x202f
    ||| c as u32 == 0x205f
    ||| c as u32 == 0x3000
}

pub fn is_ws(c: char) -> (r: bool)
    ensures
        r == is_ws_char(c),
{
    let u = c as u32;
    (0x09 <= u && u <= 0x0d) || u == 0x20 || u == 0x85 || u == 0xa0 || u == 0x1680 || (0x2000 <= u
        && u <= 0x200a) || u == 0x2028 || u == 0x2029 || u == 0x202f || u == 0x205f || u == 0x3000
}

pub open spec fn trim_start_spec(s: Seq<char>) -> Seq<char>
    decreases s.len(),
{
    if s.len() == 0 {
        s
    } else if is_ws_char(s[0]) {
        trim_start_spec(s.drop_first())
    } else {
        s
    }
}

pub open spec fn trim_end_spec(s: Seq<char>) -> Seq<char>
    decreases s.len(),
{
    if s.len() == 0 {
        s
    } else if is_ws_char(s.last()) {
        trim_end_spec(s.drop_last())
    } else {
        s
    }
}

/// What `str::trim` returns: the input without leading and trailing
/// whitespace.
pub open spec fn trim_spec(s: Seq<char>) -> Seq<char> {
    trim_end_spec(trim_start_spec(s))
}

proof fn lemma_trim_start_is_skip(s: Seq<char>, i: int)
    requires
        0 <= i <= s.len(),
        forall|k: int| 0 <= k < i ==> is_ws_char(s[k]),
        i < s.len() ==> !is_ws_char(s[i]),
    ensures
        trim_start_spec(s) == s.skip(i),
    decreases i,
{
    if i == 0 {
        assert(s.skip(0) =~= s);
    } else {
        assert(is_ws_char(s[0]));
        lemma_trim_start_is_skip(s.drop_first(), i - 1);
        assert(s.drop_first().skip(i - 1) =~= s.skip(i));
    }
}

proof fn lemma_trim_end_is_take(s: Seq<char>, j: int)
    requires
        0 <= j <= s.len(),
        forall|k: int| j <= k < s.len() ==> is_ws_char(s[k]),
        j > 0 ==> !is_ws_char(s[j - 1]),
    ensures
        trim_end_spec(s) == s.take(j),
    decreases s.len() - j,
{
    if j == s.len() {
        assert(s.take(j) =~= s);
    } else {
        assert(is_ws_char(s.last()));
        lemma_trim_end_is_take(s.drop_last(), j);
        assert(s.drop_last().take(j) =~= s.take(j));
    }
}

/// `str::trim`, proved against the whitespace model above.
pub fn trim(s: &str) -> (r: &str)
    ensures
        r@ == trim_spec(s@),
{
    let n = s.unicode_len();
    let mut i: usize = 0;
    while i < n && is_ws(s.get_char(i))
        invariant
            0 <= i <= n,
            n == s@.len(),
            forall|k: int| 0 <= k < i ==> is_ws_char(s@[k]),
        decreases n - i,
    {
        i = i + 1;
    }
    let mut j: usize = n;
    while j > i && is_ws(s.get_char(j - 1))
        invariant
            i <= j <= n,
            n == s@.len(),
            forall|k: int| 0 <= k < i ==> is_ws_char(s@[k]),
            i < n ==> !is_ws_char(s@[i as int]),
            forall|k: int| j <= k < n ==> is_ws_char(s@[k]),
        decreases j,
    {
        j = j - 1;
    }
    proof {
        lemma_trim_start_is_skip(s@, i as int);
        let t = s@.skip(i as int);
        lemma_trim_end_is_take(t, j - i);
        assert(t.take(j - i) =~= s@.subrange(i as int, j as int));
    }
    s.substring_char(i, j)
}

proof fn lemma_trim_start_no_lead(s: Seq<char>)
    ensures
        trim_start_spec(s).len() > 0 ==> !is_ws_char(trim_start_spec(s)[0]),
    decreases s.len(),
{
    if s.len() > 0 && is_ws_char(s[0]) {
        lemma_trim_start_no_lead(s.drop_first());
    }
}

proof fn lemma_trim_end_no_trail(s: Seq<char>)
    ensures
        trim_end_spec(s).len() > 0 ==> !is_ws_char(trim_end_spec(s).last()),
    decreases s.len(),
{
    if s.len() > 0 && is_ws_char(s.last()) {
        lemma_trim_end_no_trail(s.drop_last());
    }
}

proof fn lemma_trim_end_keeps_first(s: Seq<char>)
    ensures
        trim_end_spec(s).len() > 0 ==> trim_end_spec(s)[0] == s[0],
    decreases s.len(),
{
    if s.len() > 0 && is_ws_char(s.last()) {
        lemma_trim_end_keeps_first(s.drop_last());
    }
}

/// Trimming an already trimmed string changes nothing.
pub proof fn lemma_trim_idempotent(s: Seq<char>)
    ensures
        trim_spec(trim_spec(s)) == trim_spec(s),
{
    let t = trim_spec(s);
    lemma_trim_start_no_lead(s);
    lemma_trim_end_no_trail(trim_start_spec(s));
    lemma_trim_end_keeps_first(trim_start_spec(s));
    if t.len() == 0 {
        assert(trim_start_spec(t) == t);
        assert(trim_end_spec(t) == t);
    } else {
        assert(!is_ws_char(t[0]));
        assert(trim_start_spec(t) == t);
        assert(!is_ws_char(t.last()));
        assert(trim_end_spec(t) == t);
    }
}

proof fn lemma_trim_start_suffix(s: Seq<char>)
    ensures
        exists|a: int| 0 <= a <= s.len() && trim_start_spec(s) == s.skip(a),
    decreases s.len(),
{
    if s.len() == 0 {
        assert(s.skip(0) =~= s);
        assert(trim_start_spec(s) == s.skip(0));
    } else if is_ws_char(s[0]) {
        lemma_trim_start_suffix(s.drop_first());
        let a = choose|a: int|
            0 <= a <= s.drop_first().len() && trim_start_spec(s.drop_first()) == s.drop_first().skip(
                a,
            );
        assert(s.drop_first().skip(a) =~= s.skip(a + 1));
        assert(trim_start_spec(s) == s.skip(a + 1));
    } else {
        assert(s.skip(0) =~= s);
        assert(trim_start_spec(s) == s.skip(0));
    }
}

proof fn lemma_trim_end_prefix(s: Seq<char>)
    ensures
        exists|b: int| 0 <= b <= s.len() && trim_end_spec(s) == s.take(b),
    decreases s.len(),
{
    if s.len() == 0 {
        assert(s.take(0) =~= s);
        assert(trim_end_spec(s) == s.take(0));
    } else if is_ws_char(s.last()) {
        lemma_trim_end_prefix(s.drop_last());
        let b = choose|b: int|
            0 <= b <= s.drop_last().len() && trim_end_spec(s.drop_last()) == s.drop_last().take(b);
        assert(s.drop_last().take(b) =~= s.take(b));
        assert(trim_end_spec(s) == s.take(b));
    } else {
        assert(s.take(s.len() as int) =~= s);
        assert(trim_end_spec(s) == s.take(s.len() as int));
    }
}

/// A trimmed string is a contiguous piece of the original.
pub proof fn lemma_trim_is_subrange(s: Seq<char>)
    ensures
        exists|a: int, b: int|
            0 <= a <= b <= s.len() && trim_spec(s) == s.subrange(a, b),
{
    lemma_trim_start_suffix(s);
    let a = choose|a: int| 0 <= a <= s.len() && trim_start_spec(s) == s.skip(a);
    lemma_trim_end_prefix(s.skip(a));
    let b = choose|b: int|
        0 <= b <= s.skip(a).len() && trim_end_spec(s.skip(a)) == s.skip(a).take(b);
    assert(s.skip(a).take(b) =~= s.subrange(a, a + b));
    assert(trim_spec(s) == s.subrange(a, a + b));
}

/// A string with non-whitespace edges trims to itself.
pub proof fn lemma_trim_edge_identity(s: Seq<char>)
    requires
        s.len() > 0,
        !is_ws_char(s[0]),
        !is_ws_char(s.last()),
    ensures
        trim_spec(s) == s,
{
    assert(trim_start_spec(s) == s);
    assert(trim_end_spec(s) == s);
}

/// Trimming keeps a non-whitespace final character.
pub proof fn lemma_trim_keeps_tilde_last(s: Seq<char>)
    requires
        s.len() > 0,
        !is_ws_char(s.last()),
    ensures
        trim_spec(s).len() > 0,
        trim_spec(s).last() == s.last(),
{
    lemma_trim_start_keeps_last(s);
    let t = trim_start_spec(s);
    assert(trim_end_spec(t) == t);
}

proof fn lemma_trim_start_keeps_last(s: Seq<char>)
    requires
        s.len() > 0,
        !is_ws_char(s.last()),
    ensures
        trim_start_spec(s).len() > 0,
        trim_start_spec(s).last() == s.last(),
    decreases s.len(),
{
    if is_ws_char(s[0]) {
        assert(s.len() > 1);
        assert(s.drop_first().last() == s.last());
        lemma_trim_start_keeps_last(s.drop_first());
    }
}

/// The position of the first occurrence of `c` in `s`, if any.
pub open spec fn find_char_spec(s: Seq<char>, c: char) -> Option<int>
    decreases s.len(),
{
    if s.len() == 0 {
        None
    } else if s[0] == c {
        Some(0int)
    } else {
        match find_char_spec(s.drop_first(), c) {
            None => None,
            Some(i) => Some(i + 1),
        }
    }
}

pub proof fn lemma_find_char(s: Seq<char>, c: char)
    ensures
        match find_char_spec(s, c) {
            None => forall|k: int| 0 <= k < s.len() ==> s[k] != c,
            Some(i) => 0 <= i < s.len() && s[i] == c && forall|k: int| 0 <= k < i ==> s[k] != c,
        },
    decreases s.len(),
{
    if s.len() > 0 && s[0] != c {
        lemma_find_char(s.drop_first(), c);
        match find_char_spec(s.drop_first(), c) {
            None => {
                assert(forall|k: int|
                    0 <= k < s.len() ==> s[k] != c) by {
                    assert(forall|k: int|
                        1 <= k < s.len() ==> s[k] == s.drop_first()[k - 1]);
                };
            },
            Some(i) => {
                assert(s[i + 1] == s.drop_first()[i]);
                assert(forall|k: int|
                    1 <= k < i + 1 ==> s[k] == s.drop_first()[k - 1]);
            },
        }
    }
}

pub proof fn lemma_find_char_at(s: Seq<char>, c: char, i: int)
    requires
        0 <= i <= s.len(),
        forall|k: int| 0 <= k < i ==> s[k] != c,
        i < s.len() ==> s[i] == c,
    ensures
        i < s.len() ==> find_char_spec(s, c) == Some(i),
        i == s.len() ==> find_char_spec(s, c) is None,
    decreases i,
{
    if i == 0 {
        if s.len() > 0 {
        } else {
        }
    } else {
        assert(s[0] != c);
        lemma_find_char_at(s.drop_first(), c, i - 1);
    }
}

/// First occurrence of `c` in `s`, by a linear scan.
pub fn find_char(s: &str, c: char) -> (r: Option<usize>)
    ensures
        match r {
            None => find_char_spec(s@, c) is None,
            Some(i) => find_char_spec(s@, c) == Some(i as int),
        },
{
    let n = s.unicode_len();
    let mut i: usize = 0;
    while i < n
        invariant
            0 <= i <= n,
            n == s@.len(),
            forall|k: int| 0 <= k < i ==> s@[k] != c,
        decreases n - i,
    {
        if s.get_char(i) == c {
            proof {
                lemma_find_char_at(s@, c, i as int);
            }
            return Some(i);
        }
        i = i + 1;
    }
    proof {
        lemma_find_char_at(s@, c, n as int);
    }
    None
}

/// How many times `c` occurs in `s`.
pub open spec fn count_char(s: Seq<char>, c: char) -> nat
    decreases s.len(),
{
    if s.len() == 0 {
        0
    } else {
        count_char(s.drop_last(), c) + if s.last() == c {
            1nat
        } else {
            0nat
        }
    }
}

pub fn count_char_exec(s: &str, c: char) -> (r: usize)
    ensures
        r == count_char(s@, c),
{
    let n = s.unicode_len();
    let mut i: usize = 0;
    let mut cnt: usize = 0;
    while i < n
        invariant
            0 <= i <= n,
            n == s@.len(),
            cnt == count_char(s@.take(i as int), c),
            cnt <= i,
        decreases n - i,
    {
        proof {
            assert(s@.take(i + 1).drop_last() =~= s@.take(i as int));
            assert(s@.take(i + 1).last() == s@[i as int]);
        }
        if s.get_char(i) == c {
            cnt = cnt + 1;
        }
        i = i + 1;
    }
    proof {
        assert(s@.take(n as int) =~= s@);
    }
    cnt
}

/// The pieces of `s` between occurrences of the separator `c`; `s` itself
/// when `c` does not occur. A trailing separator yields a trailing empty
/// piece.
pub open spec fn split_char(s: Seq<char>, c: char) -> Seq<Seq<char>>
    decreases s.len(),
{
    match find_char_spec(s, c) {
        None => seq![s],
        Some(i) => {
            if 0 <= i < s.len() {
                seq![s.take(i)] + split_char(s.skip(i + 1), c)
            } else {
                seq![s]
            }
        },
    }
}

pub proof fn lemma_split_char_nonempty(s: Seq<char>, c: char)
    ensures
        split_char(s, c).len() >= 1,
{
    lemma_find_char(s, c);
}

pub open spec fn str_views(s: Seq<&str>) -> Seq<Seq<char>> {
    s.map_values(|t: &str| t@)
}

/// Split `s` on `c`, returning the pieces as borrowed substrings.
pub fn split_str<'a>(s: &'a str, c: char) -> (r: Vec<&'a str>)
    ensures
        str_views(r@) == split_char(s@, c),
{
    let n = s.unicode_len();
    let mut parts: Vec<&'a str> = Vec::new();
    let mut start: usize = 0;
    let mut done = false;
    proof {
        assert(s@.skip(0) =~= s@);
        assert(str_views(parts@) + split_char(s@, c) =~= split_char(s@, c));
    }
    while !done
        invariant
            0 <= start <= n,
            n == s@.len(),
            !done ==> split_char(s@, c) == str_views(parts@) + split_char(s@.skip(start as int), c),
            done ==> str_views(parts@) == split_char(s@, c),
        decreases (if done { 0int } else { n - start + 1 }),
    {
        let mut i: usize = start;
        while i < n && s.get_char(i) != c
            invariant
                start <= i <= n,
                n == s@.len(),
                forall|k: int| start <= k < i ==> s@[k] != c,
            decreases n - i,
        {
            i = i + 1;
        }
        let ghost rest = s@.skip(start as int);
        proof {
            lemma_find_char_at(rest, c, i - start);
            assert(forall|k: int|
                0 <= k < i - start ==> rest[k] == s@[start + k] && s@[start + k] != c);
            if i < n {
                assert(rest[i - start] == s@[i as int]);
            }
        }
        if i < n {
            let piece = s.substring_char(start, i);
            proof {
                assert(rest.take(i - start) =~= s@.subrange(start as int, i as int));
                assert(rest.skip(i - start + 1) =~= s@.skip(i + 1));
                assert(split_char(rest, c) == seq![piece@] + split_char(s@.skip(i + 1), c));
            }
            parts.push(piece);
            proof {
                assert(str_views(parts@) =~= str_views(parts@.drop_last()) + seq![piece@]);
                assert(str_views(parts@) + split_char(s@.skip(i + 1), c) =~= (str_views(
                    parts@.drop_last(),
                ) + split_char(rest, c)));
            }
            start = i + 1;
        } else {
            let piece = s.substring_char(start, n);
            proof {
                assert(piece@ =~= rest);
                assert(split_char(rest, c) == seq![rest]);
            }
            parts.push(piece);
            proof {
                assert(str_views(parts@) =~= str_views(parts@.drop_last()) + seq![piece@]);
            }
            done = true;
        }
    }
    parts
}

/// Character-by-character string equality.
pub fn str_eq(a: &str, b: &str) -> (r: bool)
    ensures
        r == (a@ == b@),
{
    let na = a.unicode_len();
    let nb = b.unicode_len();
    if na != nb {
        proof {
            assert(a@ != b@);
        }
        return false;
    }
    let mut i: usize = 0;
    while i < na
        invariant
            0 <= i <= na,
            na == a@.len(),
            na == b@.len(),
            forall|k: int| 0 <= k < i ==> a@[k] == b@[k],
        decreases na - i,
    {
        if a.get_char(i) != b.get_char(i) {
            proof {
                assert(a@[i as int] != b@[i as int]);
            }
            return false;
        }
        i = i + 1;
    }
    proof {
        assert(a@ =~= b@);
    }
    true
}

/// Decimal digits.
pub open spec fn is_digit_char(c: char) -> bool {
    0x30 <= c as u32 && c as u32 <= 0x39
}

pub open spec fn digit_val(c: char) -> int {
    c as u32 - 0x30
}

pub open spec fn all_digit_chars(s: Seq<char>) -> bool {
    forall|k: int| 0 <= k < s.len() ==> is_digit_char(s[k])
}

/// The value of a digit string read in base ten.
pub open spec fn digits_val(s: Seq<char>) -> int
    decreases s.len(),
{
    if s.len() == 0 {
        0
    } else {
        digits_val(s.drop_last()) * 10 + digit_val(s.last())
    }
}

/// The canonical reading of an unsigned 32-bit decimal: all digits, no
/// leading zero, and within range; exactly the strings that `u32` parsing
/// accepts and re-serializes unchanged.
pub open spec fn canon_u32(s: Seq<char>) -> Option<u32> {
    if s.len() == 0 || !all_digit_chars(s) || (s.len() > 1 && s[0] == '0') || digits_val(s)
        > u32::MAX {
        None
    } else {
        Some(digits_val(s) as u32)
    }
}

proof fn lemma_digits_val_nonneg(s: Seq<char>)
    requires
        all_digit_chars(s),
    ensures
        digits_val(s) >= 0,
    decreases s.len(),
{
    if s.len() > 0 {
        assert(all_digit_chars(s.drop_last())) by {
            assert(forall|k: int| 0 <= k < s.len() - 1 ==> s.drop_last()[k] == s[k]);
        };
        lemma_digits_val_nonneg(s.drop_last());
    }
}

proof fn lemma_digits_val_prefix_le(s: Seq<char>, i: int)
    requires
        all_digit_chars(s),
        0 <= i <= s.len(),
    ensures
        digits_val(s.take(i)) <= digits_val(s),
    decreases s.len() - i,
{
    if i < s.len() {
        lemma_digits_val_prefix_le(s, i + 1);
        let t = s.take(i + 1);
        assert(t.drop_last() =~= s.take(i));
        assert(all_digit_chars(s.take(i))) by {
            assert(forall|k: int| 0 <= k < i ==> s.take(i)[k] == s[k]);
        };
        lemma_digits_val_nonneg(s.take(i));
        assert(digits_val(t) == digits_val(s.take(i)) * 10 + digit_val(t.last()));
        assert(digits_val(s.take(i)) * 10 >= digits_val(s.take(i)));
        assert(digit_val(t.last()) >= 0);
    } else {
        assert(s.take(i) =~= s);
    }
}

/// Read a canonical `u32` from `s`: the value whose decimal form is
/// exactly `s`.
pub fn parse_canon_u32(s: &str) -> (r: Option<u32>)
    ensures
        r == canon_u32(s@),
{
    let n = s.unicode_len();
    if n == 0 {
        return None;
    }
    if n > 1 && s.get_char(0) == '0' {
        return None;
    }
    let mut acc: u64 = 0;
    let mut i: usize = 0;
    while i < n
        invariant
            0 <= i <= n,
            n == s@.len(),
            acc == digits_val(s@.take(i as int)),
            acc <= u32::MAX,
            all_digit_chars(s@.take(i as int)),
        decreases n - i,
    {
        let ch = s.get_char(i);
        let u = ch as u32;
        if !(0x30 <= u && u <= 0x39) {
            assert(!is_digit_char(s@[i as int]));
            return None;
        }
        proof {
            let t = s@.take(i + 1);
            assert(t.drop_last() =~= s@.take(i as int));
            assert(t.last() == s@[i as int]);
            assert(forall|k: int|
                0 <= k < i + 1 ==> s@.take(i + 1)[k] == s@.take(i as int).push(s@[i as int])[k]);
        }
        acc = acc * 10 + (u - 0x30) as u64;
        i = i + 1;
        if acc > 0xffff_ffff {
            proof {
                if all_digit_chars(s@) {
                    lemma_digits_val_prefix_le(s@, i as int);
                }
            }
            return None;
        }
    }
    proof {
        assert(s@.take(n as int) =~= s@);
    }
    Some(acc as u32)
}

pub open spec fn dec_digit_char(d: int) -> char {
    if d == 0 {
        '0'
    } else if d == 1 {
        '1'
    } else if d == 2 {
        '2'
    } else if d == 3 {
        '3'
    } else if d == 4 {
        '4'
    } else if d == 5 {
        '5'
    } else if d == 6 {
        '6'
    } else if d == 7 {
        '7'
    } else if d == 8 {
        '8'
    } else {
        '9'
    }
}

/// The decimal form of a non-negative integer, without leading zeros.
pub open spec fn dec_of(n: int) -> Seq<char>
    decreases n,
{
    if n < 10 {
        seq![dec_digit_char(n)]
    } else {
        dec_of(n / 10) + seq![dec_digit_char(n % 10)]
    }
}

pub open spec fn dec_of_i64(n: int) -> Seq<char> {
    if n >= 0 {
        dec_of(n)
    } else {
        seq!['-'] + dec_of(-n)
    }
}

fn dec_digit_exec(d: u64) -> (r: &'static str)
    requires
        d < 10,
    ensures
        r@ == seq![dec_digit_char(d as int)],
{
    proof {
        reveal_strlit("0");
        reveal_strlit("1");
        reveal_strlit("2");
        reveal_strlit("3");
        reveal_strlit("4");
        reveal_strlit("5");
        reveal_strlit("6");
        reveal_strlit("7");
        reveal_strlit("8");
        reveal_strlit("9");
    }
    let r = if d == 0 {
        "0"
    } else if d == 1 {
        "1"
    } else if d == 2 {
        "2"
    } else if d == 3 {
        "3"
    } else if d == 4 {
        "4"
    } else if d == 5 {
        "5"
    } else if d == 6 {
        "6"
    } else if d == 7 {
        "7"
    } else if d == 8 {
        "8"
    } else {
        "9"
    };
    proof {
        assert(r@ =~= seq![dec_digit_char(d as int)]);
    }
    r
}

/// The decimal form of a value, without sign or leading zeros.
pub fn u64_to_dec(n: u64) -> (r: String)
    ensures
        r@ == dec_of(n as int),
    decreases n,
{
    if n < 10 {
        dec_digit_exec(n).to_owned()
    } else {
        let rest = u64_to_dec(n / 10);
        rest.concat(dec_digit_exec(n % 10))
    }
}

/// The decimal form of a value, with a leading `-` exactly when it is
/// negative.
pub fn i64_to_dec(n: i64) -> (r: String)
    ensures
        r@ == dec_of_i64(n as int),
{
    if n >= 0 {
        u64_to_dec(n as u64)
    } else {
        let mag: u64 = if n == i64::MIN {
            9223372036854775808u64
        } else {
            (-n) as u64
        };
        proof {
            assert(mag as int == -(n as int));
            reveal_strlit("-");
            assert("-"@ =~= seq!['-']);
        }
        "-".to_owned().concat(u64_to_dec(mag).as_str())
    }
}

/// Whether every character of the string is left unchanged by Unicode
/// lowercasing.
pub uninterp spec fn lower_fixed(c: char) -> bool;

pub open spec fn all_lower_fixed(s: Seq<char>) -> bool {
    forall|k: int| 0 <= k < s.len() ==> lower_fixed(s[k])
}

/// Relies on `str::to_lowercase`: it maps each character through the
/// Unicode lowercase conversion (with a special, non-identity rule for a
/// final capital sigma), so a string equals its lowercase form exactly
/// when every one of its characters is already lowercase-fixed.
#[verifier::external_body]
pub fn is_lower_fixed_str(s: &str) -> (r: bool)
    ensures
        r == (forall|k: int| 0 <= k < s@.len() ==> lower_fixed(s@[k])),
{
    s == s.to_lowercase().as_str()
}

pub open spec fn string_views(s: Seq<String>) -> Seq<Seq<char>> {
    s.map_values(|x: String| x@)
}

/// The concatenation of a sequence of character sequences.
pub open spec fn concat_all(ss: Seq<Seq<char>>) -> Seq<char>
    decreases ss.len(),
{
    if ss.len() == 0 {
        Seq::empty()
    } else {
        ss[0] + concat_all(ss.drop_first())
    }
}

pub proof fn lemma_concat_all_push(ss: Seq<Seq<char>>, x: Seq<char>)
    ensures
        concat_all(ss.push(x)) == concat_all(ss) + x,
    decreases ss.len(),
{
    if ss.len() == 0 {
        assert(ss.push(x).drop_first() =~= Seq::<Seq<char>>::empty());
        assert(ss.push(x)[0] == x);
        assert(concat_all(ss.push(x)) == x + concat_all(Seq::<Seq<char>>::empty()));
        assert(x + Seq::<char>::empty() =~= x);
        assert(concat_all(ss) + x =~= x);
    } else {
        assert(ss.push(x).drop_first() =~= ss.drop_first().push(x));
        assert(ss.push(x)[0] == ss[0]);
        lemma_concat_all_push(ss.drop_first(), x);
        assert(concat_all(ss.push(x)) == ss[0] + (concat_all(ss.drop_first()) + x));
        assert(ss[0] + (concat_all(ss.drop_first()) + x) =~= (ss[0] + concat_all(ss.drop_first()))
            + x);
    }
}

pub proof fn lemma_concat_all_split(ss: Seq<Seq<char>>, i: int)
    requires
        0 <= i <= ss.len(),
    ensures
        concat_all(ss) == concat_all(ss.take(i)) + concat_all(ss.skip(i)),
    decreases i,
{
    if i == 0 {
        assert(ss.take(0) =~= Seq::<Seq<char>>::empty());
        assert(ss.skip(0) =~= ss);
        assert(concat_all(ss.take(0)) + concat_all(ss) =~= concat_all(ss));
    } else {
        assert(ss.len() > 0);
        lemma_concat_all_split(ss.drop_first(), i - 1);
        assert(ss.take(i).drop_first() =~= ss.drop_first().take(i - 1));
        assert(ss.skip(i) =~= ss.drop_first().skip(i - 1));
        assert(concat_all(ss.take(i)) == ss[0] + concat_all(ss.drop_first().take(i - 1)));
        assert((ss[0] + concat_all(ss.drop_first().take(i - 1))) + concat_all(ss.skip(i)) =~= ss[0]
            + (concat_all(ss.drop_first().take(i - 1)) + concat_all(ss.skip(i))));
    }
}

/// The pieces of a split, joined back with the separator between them,
/// give the original sequence.
pub open spec fn join_char(ss: Seq<Seq<char>>, c: char) -> Seq<char>
    decreases ss.len(),
{
    if ss.len() == 0 {
        Seq::empty()
    } else if ss.len() == 1 {
        ss[0]
    } else {
        ss[0] + seq![c] + join_char(ss.drop_first(), c)
    }
}

/// No piece of a split contains the separator.
pub proof fn lemma_split_pieces_no_sep(s: Seq<char>, c: char)
    ensures
        forall|j: int, k: int|
            0 <= j < split_char(s, c).len() && 0 <= k < split_char(s, c)[j].len() ==> #[trigger] split_char(
                s,
                c,
            )[j][k] != c,
    decreases s.len(),
{
    lemma_find_char(s, c);
    match find_char_spec(s, c) {
        None => {
            assert(split_char(s, c) == seq![s]);
        },
        Some(i) => {
            lemma_split_pieces_no_sep(s.skip(i + 1), c);
            let rest = split_char(s.skip(i + 1), c);
            assert(split_char(s, c) == seq![s.take(i)] + rest);
            assert forall|j: int, k: int|
                0 <= j < split_char(s, c).len() && 0 <= k < split_char(s, c)[j].len() implies #[trigger] split_char(
                s,
                c,
            )[j][k] != c by {
                if j == 0 {
                    assert(split_char(s, c)[0] == s.take(i));
                    assert(s.take(i)[k] == s[k]);
                } else {
                    assert(split_char(s, c)[j] == rest[j - 1]);
                }
            };
        },
    }
}

/// Splitting a piece, a separator and a remainder starts with the piece.
pub proof fn lemma_split_concat_step(b: Seq<char>, rest: Seq<char>, c: char)
    requires
        forall|k: int| 0 <= k < b.len() ==> b[k] != c,
    ensures
        split_char(b + seq![c] + rest, c) == seq![b] + split_char(rest, c),
{
    let s = b + seq![c] + rest;
    assert(s[b.len() as int] == c);
    assert(forall|k: int| 0 <= k < b.len() ==> s[k] == b[k]);
    lemma_find_char_at(s, c, b.len() as int);
    assert(find_char_spec(s, c) == Some(b.len() as int));
    assert(s.take(b.len() as int) =~= b);
    assert(s.skip(b.len() as int + 1) =~= rest);
}

pub proof fn lemma_split_join(s: Seq<char>, c: char)
    ensures
        join_char(split_char(s, c), c) == s,
    decreases s.len(),
{
    lemma_find_char(s, c);
    match find_char_spec(s, c) {
        None => {
            assert(split_char(s, c) == seq![s]);
        },
        Some(i) => {
            lemma_split_join(s.skip(i + 1), c);
            lemma_split_char_nonempty(s.skip(i + 1), c);
            let rest = split_char(s.skip(i + 1), c);
            assert(split_char(s, c) == seq![s.take(i)] + rest);
            assert((seq![s.take(i)] + rest).drop_first() =~= rest);
            assert((seq![s.take(i)] + rest)[0] == s.take(i));
            assert(join_char(split_char(s, c), c) == s.take(i) + seq![c] + join_char(rest, c));
            assert(s.take(i) + seq![c] + s.skip(i + 1) =~= s);
        },
    }
}

use vstd::utf8::encode_utf8;

pub proof fn lemma_encode_utf8_concat(a: Seq<char>, b: Seq<char>)
    ensures
        encode_utf8(a + b) == encode_utf8(a) + encode_utf8(b),
    decreases a.len(),
{
    if a.len() == 0 {
        assert(a + b =~= b);
        assert(encode_utf8(a) + encode_utf8(b) =~= encode_utf8(b));
    } else {
        assert((a + b).drop_first() =~= a.drop_first() + b);
        assert((a + b)[0] == a[0]);
        lemma_encode_utf8_concat(a.drop_first(), b);
        assert(encode_utf8(a + b) =~= encode_utf8(a) + encode_utf8(b));
    }
}

/// Lexicographic order on character sequences by code point, the order in
/// which diff paths are reported.
pub open spec fn lex_le(a: Seq<char>, b: Seq<char>) -> bool
    decreases a.len(),
{
    if a.len() == 0 {
        true
    } else if b.len() == 0 {
        false
    } else if (a[0] as u32) < (b[0] as u32) {
        true
    } else if (a[0] as u32) > (b[0] as u32) {
        false
    } else {
        lex_le(a.drop_first(), b.drop_first())
    }
}

proof fn lemma_lex_le_common_prefix(a: Seq<char>, b: Seq<char>, i: int)
    requires
        0 <= i <= a.len(),
        i <= b.len(),
        forall|k: int| 0 <= k < i ==> a[k] == b[k],
    ensures
        lex_le(a, b) == lex_le(a.skip(i), b.skip(i)),
    decreases i,
{
    if i > 0 {
        assert(a.len() > 0 && b.len() > 0 && a[0] == b[0]);
        lemma_lex_le_common_prefix(a.drop_first(), b.drop_first(), i - 1);
        assert(a.drop_first().skip(i - 1) =~= a.skip(i));
        assert(b.drop_first().skip(i - 1) =~= b.skip(i));
    } else {
        assert(a.skip(0) =~= a);
        assert(b.skip(0) =~= b);
    }
}

/// Insert into an already sorted list, before the first member that is
/// not smaller.
pub open spec fn insert_sorted(x: Seq<char>, s: Seq<Seq<char>>) -> Seq<Seq<char>>
    decreases s.len(),
{
    if s.len() == 0 {
        seq![x]
    } else if lex_le(x, s[0]) {
        seq![x] + s
    } else {
        seq![s[0]] + insert_sorted(x, s.drop_first())
    }
}

/// Insertion sort, processing members left to right.
pub open spec fn sort_strs(s: Seq<Seq<char>>) -> Seq<Seq<char>>
    decreases s.len(),
{
    if s.len() == 0 {
        s
    } else {
        insert_sorted(s.last(), sort_strs(s.drop_last()))
    }
}

/// Drop a member equal to its predecessor.
pub open spec fn dedup_adj(s: Seq<Seq<char>>) -> Seq<Seq<char>>
    decreases s.len(),
{
    if s.len() <= 1 {
        s
    } else if s.last() == s[s.len() - 2] {
        dedup_adj(s.drop_last())
    } else {
        dedup_adj(s.drop_last()).push(s.last())
    }
}

/// Sort ascending and drop duplicates: the order in which diff paths are
/// reported.
pub open spec fn sort_dedup(s: Seq<Seq<char>>) -> Seq<Seq<char>> {
    dedup_adj(sort_strs(s))
}

fn insert_sorted_exec(x: String, s: Vec<String>) -> (r: Vec<String>)
    ensures
        string_views(r@) == insert_sorted(x@, string_views(s@)),
    decreases s@.len(),
{
    let mut s = s;
    if s.len() == 0 {
        let mut out: Vec<String> = Vec::new();
        out.push(x);
        proof {
            assert(string_views(out@) =~= insert_sorted(out@[0]@, string_views(s@)));
        }
        return out;
    }
    proof {
        assert(string_views(s@)[0] == s@[0]@);
    }
    if str_lex_le(x.as_str(), s[0].as_str()) {
        let ghost sv = string_views(s@);
        let ghost xv = x@;
        let mut out: Vec<String> = Vec::new();
        out.push(x);
        out.append(&mut s);
        proof {
            assert(string_views(out@) =~= seq![xv] + sv);
        }
        out
    } else {
        let ghost sv = string_views(s@);
        let ghost xv = x@;
        let first = s.remove(0);
        proof {
            assert(string_views(s@) =~= sv.drop_first());
        }
        let rest = insert_sorted_exec(x, s);
        let mut out: Vec<String> = Vec::new();
        let ghost fv = first@;
        out.push(first);
        let mut rest = rest;
        let ghost rv = string_views(rest@);
        out.append(&mut rest);
        proof {
            assert(string_views(out@) =~= seq![fv] + rv);
            assert(seq![fv] + rv =~= insert_sorted(xv, sv));
        }
        out
    }
}

fn sort_strs_exec(s: Vec<String>) -> (r: Vec<String>)
    ensures
        string_views(r@) == sort_strs(string_views(s@)),
    decreases s@.len(),
{
    let mut s = s;
    let ghost sv = string_views(s@);
    if s.len() == 0 {
        return s;
    }
    let last = match s.pop() {
        Some(x) => x,
        None => {
            return s;
        },
    };
    proof {
        assert(string_views(s@) =~= sv.drop_last());
        assert(last@ == sv.last());
    }
    let sorted = sort_strs_exec(s);
    insert_sorted_exec(last, sorted)
}

fn dedup_adj_exec(s: Vec<String>) -> (r: Vec<String>)
    ensures
        string_views(r@) == dedup_adj(string_views(s@)),
    decreases s@.len(),
{
    let mut s = s;
    let ghost sv = string_views(s@);
    if s.len() <= 1 {
        return s;
    }
    let eq_prev = s[s.len() - 1] == s[s.len() - 2];
    proof {
        assert(sv[sv.len() - 1] == s@[s@.len() - 1]@);
        assert(sv[sv.len() - 2] == s@[s@.len() - 2]@);
    }
    let last = match s.pop() {
        Some(x) => x,
        None => {
            return s;
        },
    };
    proof {
        assert(string_views(s@) =~= sv.drop_last());
    }
    let rest = dedup_adj_exec(s);
    if eq_prev {
        rest
    } else {
        let mut rest = rest;
        let ghost rv = string_views(rest@);
        rest.push(last);
        proof {
            assert(string_views(rest@) =~= rv.push(sv.last()));
        }
        rest
    }
}

/// Sort a list of paths ascending and drop duplicates.
pub fn sort_dedup_exec(s: Vec<String>) -> (r: Vec<String>)
    ensures
        string_views(r@) == sort_dedup(string_views(s@)),
{
    dedup_adj_exec(sort_strs_exec(s))
}

/// Code-point lexicographic comparison of two strings.
pub fn str_lex_le(a: &str, b: &str) -> (r: bool)
    ensures
        r == lex_le(a@, b@),
{
    let na = a.unicode_len();
    let nb = b.unicode_len();
    let mut i: usize = 0;
    while i < na && i < nb
        invariant
            0 <= i <= na,
            i <= nb,
            na == a@.len(),
            nb == b@.len(),
            forall|k: int| 0 <= k < i ==> a@[k] == b@[k],
        decreases na - i,
    {
        let ca = a.get_char(i) as u32;
        let cb = b.get_char(i) as u32;
        proof {
            lemma_lex_le_common_prefix(a@, b@, i as int);
        }
        if ca < cb {
            return true;
        }
        if ca > cb {
            return false;
        }
        proof {
            assert(a@[i as int] as u32 == b@[i as int] as u32);
            assert(a@[i as int] == b@[i as int]) by {
                assert(a@[i as int] as u32 == b@[i as int] as u32);
            };
        }
        i = i + 1;
    }
    proof {
        lemma_lex_le_common_prefix(a@, b@, i as int);
    }
    na <= nb
}

} // verus!

