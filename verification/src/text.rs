//! Character-level helpers for the command-line grammars: the characters
//! of a string, Unicode lowercasing and trimming, splitting, and decimal
//! integers as Rust's `from_str` reads them.

use vstd::prelude::*;

verus! {

/// The characters of `s`, in order.
pub fn chars_of(s: &str) -> (v: Vec<char>)
    ensures
        v@ == s@,
{
    let mut v: Vec<char> = Vec::new();
    for c in it: s.chars()
        invariant
            v@ == it.seq().take(it.index() as int),
            it.seq() == s@,
    {
        v.push(c);
    }
    v
}


/// What `str::to_lowercase` gives for a string with characters `s`.
pub uninterp spec fn lowercase_of(s: Seq<char>) -> Seq<char>;

/// What `str::trim` gives for a string with characters `s`.
pub uninterp spec fn trim_of(s: Seq<char>) -> Seq<char>;

/// Calls `str::to_lowercase` on the string of `s` and gives the
/// characters of the result, whose value is named `lowercase_of`.
#[verifier::external_body]
pub fn to_lowercase(s: &[char]) -> (r: Vec<char>)
    ensures
        r@ == lowercase_of(s@),
{
    s.iter().collect::<String>().to_lowercase().chars().collect()
}

/// Calls `str::trim` on the string of `s` and gives the characters of the
/// result, whose value is named `trim_of`.
#[verifier::external_body]
pub fn trim(s: &[char]) -> (r: Vec<char>)
    ensures
        r@ == trim_of(s@),
{
    s.iter().collect::<String>().trim().chars().collect()
}

/// The characters of `s` from `i` to `j`.
pub fn substring(s: &[char], i: usize, j: usize) -> (r: Vec<char>)
    requires
        i <= j <= s@.len(),
    ensures
        r@ == s@.subrange(i as int, j as int),
{
    let mut r: Vec<char> = Vec::new();
    let mut k = i;
    while k < j
        invariant
            i <= k <= j,
            j <= s@.len(),
            r@ == s@.subrange(i as int, k as int),
        decreases j - k,
    {
        r.push(s[k]);
        k += 1;
    }
    r
}

/// Whether `pat` occurs in `s` at position `j`.
pub open spec fn occurs_at(s: Seq<char>, pat: Seq<char>, j: int) -> bool {
    0 <= j && j + pat.len() <= s.len() && s.subrange(j, j + pat.len()) == pat
}

/// `i` is the first position at which `pat` occurs in `s`.
pub open spec fn is_first_match(s: Seq<char>, pat: Seq<char>, i: int) -> bool {
    &&& occurs_at(s, pat, i)
    &&& forall|j: int| 0 <= j < i ==> !#[trigger] occurs_at(s, pat, j)
}

/// The first position at which `pat` occurs in `s`, if it occurs.
pub open spec fn first_match(s: Seq<char>, pat: Seq<char>) -> Option<int> {
    if exists|i: int| is_first_match(s, pat, i) {
        Some(choose|i: int| is_first_match(s, pat, i))
    } else {
        None
    }
}

/// There is at most one first position.
pub proof fn lemma_first_match_unique(s: Seq<char>, pat: Seq<char>, i: int)
    requires
        is_first_match(s, pat, i),
    ensures
        first_match(s, pat) == Some(i),
{
    let k = choose|k: int| is_first_match(s, pat, k);
    if k < i {
        assert(occurs_at(s, pat, k));
    } else if i < k {
        assert(occurs_at(s, pat, i));
    }
}

/// `s` split around the first occurrence of `pat`, as `str::split_once`
/// does.
pub open spec fn split_once_spec(s: Seq<char>, pat: Seq<char>) -> Option<(Seq<char>, Seq<char>)> {
    match first_match(s, pat) {
        Some(i) => Some((s.subrange(0, i), s.subrange(i + pat.len(), s.len() as int))),
        None => None,
    }
}

/// Whether `pat` occurs in `s` at position `i`.
fn matches_at(s: &[char], pat: &[char], i: usize) -> (b: bool)
    requires
        i + pat@.len() <= s@.len(),
    ensures
        b == (s@.subrange(i as int, i + pat@.len()) == pat@),
{
    let n = s.len();
    let mut k: usize = 0;
    while k < pat.len()
        invariant
            n == s@.len(),
            i + pat@.len() <= s@.len(),
            k <= pat@.len(),
            forall|t: int| 0 <= t < k ==> s@[i + t] == pat@[t],
        decreases pat@.len() - k,
    {
        if s[i + k] != pat[k] {
            proof {
                assert(s@.subrange(i as int, i + pat@.len())[k as int] != pat@[k as int]);
            }
            return false;
        }
        k += 1;
    }
    proof {
        assert(s@.subrange(i as int, i + pat@.len()) =~= pat@);
    }
    true
}

/// The first position at or after `from` at which `pat` occurs in `s`,
/// none occurring between `from` and it.
fn find_from(s: &[char], pat: &[char], from: usize) -> (r: Option<usize>)
    requires
        from <= s@.len(),
        pat@.len() > 0,
    ensures
        match r {
            Some(i) => {
                &&& from <= i
                &&& occurs_at(s@, pat@, i as int)
                &&& forall|j: int| from <= j < i ==> !#[trigger] occurs_at(s@, pat@, j)
            },
            None => forall|j: int| from <= j ==> !#[trigger] occurs_at(s@, pat@, j),
        },
{
    let n = s.len();
    let m = pat.len();
    if m > n {
        return None;
    }
    if from > n - m {
        return None;
    }
    let mut i = from;
    while i <= n - m
        invariant
            n == s@.len(),
            m == pat@.len(),
            m > 0,
            m <= n,
            from <= i,
            forall|j: int| from <= j < i ==> !#[trigger] occurs_at(s@, pat@, j),
        decreases n - i,
    {
        if matches_at(s, pat, i) {
            return Some(i);
        }
        i += 1;
    }
    None
}

/// Splits `s` around the first occurrence of `pat`, as `str::split_once`.
pub fn split_once(s: &[char], pat: &[char]) -> (r: Option<(Vec<char>, Vec<char>)>)
    requires
        pat@.len() > 0,
    ensures
        match r {
            Some((a, b)) => split_once_spec(s@, pat@) == Some((a@, b@)),
            None => split_once_spec(s@, pat@) is None,
        },
{
    match find_from(s, pat, 0) {
        Some(i) => {
            proof { lemma_first_match_unique(s@, pat@, i as int); }
            let n = s.len();
            let a = substring(s, 0, i);
            let b = substring(s, i + pat.len(), n);
            Some((a, b))
        },
        None => {
            proof {
                if exists|i: int| is_first_match(s@, pat@, i) {
                    let k = choose|i: int| is_first_match(s@, pat@, i);
                    assert(occurs_at(s@, pat@, k));
                }
            }
            None
        },
    }
}

/// `s` split at every `sep`, as `str::split` with a character does: the
/// pieces between separators, in order, empty ones included.
pub open spec fn split_spec(s: Seq<char>, sep: char) -> Seq<Seq<char>>
    decreases s.len(),
{
    match first_match(s, seq![sep]) {
        Some(i) => if 0 <= i < s.len() {
            seq![s.subrange(0, i)] + split_spec(s.subrange(i + 1, s.len() as int), sep)
        } else {
            seq![s]
        },
        None => seq![s],
    }
}

/// Splits `s` at every `sep`, as `str::split` with a character.
pub fn split(s: &[char], sep: char) -> (pieces: Vec<Vec<char>>)
    ensures
        pieces@.len() == split_spec(s@, sep).len(),
        forall|k: int| 0 <= k < pieces@.len() ==> (#[trigger] pieces@[k])@ == split_spec(s@, sep)[k],
{
    let pat = [sep];
    let pat_slice: &[char] = &pat;
    proof { assert(pat_slice@ =~= seq![sep]); }
    let mut pieces: Vec<Vec<char>> = Vec::new();
    let ghost mut done: Seq<Seq<char>> = Seq::empty();
    let mut start: usize = 0;
    let n = s.len();
    proof { assert(s@.subrange(0, n as int) =~= s@); }
    loop
        invariant
            n == s@.len(),
            start <= n,
            pat_slice@ == seq![sep],
            pieces@.len() == done.len(),
            forall|k: int| 0 <= k < pieces@.len() ==> (#[trigger] pieces@[k])@ == done[k],
            split_spec(s@, sep) == done + split_spec(s@.subrange(start as int, n as int), sep),
        decreases n - start,
    {
        let ghost rest = s@.subrange(start as int, n as int);
        match find_from(s, pat_slice, start) {
            Some(i) => {
                proof {
                    let k = i - start;
                    assert(rest.subrange(k, k + 1) =~= s@.subrange(i as int, i + 1));
                    assert forall|j: int| 0 <= j < k implies !#[trigger] occurs_at(rest, seq![sep], j) by {
                        assert(rest.subrange(j, j + 1) =~= s@.subrange(start + j, start + j + 1));
                        assert(!occurs_at(s@, pat_slice@, start + j));
                    }
                    assert(is_first_match(rest, seq![sep], k));
                    lemma_first_match_unique(rest, seq![sep], k);
                    assert(rest.subrange(0, k) =~= s@.subrange(start as int, i as int));
                    assert(rest.subrange(k + 1, rest.len() as int) =~= s@.subrange(i + 1, n as int));
                }
                let piece = substring(s, start, i);
                proof {
                    done = done.push(piece@);
                    assert(split_spec(s@, sep) == done + split_spec(s@.subrange(i + 1, n as int), sep));
                }
                pieces.push(piece);
                start = i + 1;
            },
            None => {
                proof {
                    if exists|k: int| is_first_match(rest, seq![sep], k) {
                        let k = choose|k: int| is_first_match(rest, seq![sep], k);
                        assert(rest.subrange(k, k + 1) =~= s@.subrange(start + k, start + k + 1));
                        assert(!occurs_at(s@, pat_slice@, start + k));
                    }
                }
                let piece = substring(s, start, n);
                proof {
                    done = done.push(piece@);
                    assert(split_spec(s@, sep) == done);
                }
                pieces.push(piece);
                return pieces;
            },
        }
    }
}

/// Whether `c` is an ASCII decimal digit.
pub open spec fn is_digit(c: char) -> bool {
    '0' <= c <= '9'
}

/// Whether every character of `s` is an ASCII decimal digit.
pub open spec fn all_digits(s: Seq<char>) -> bool {
    forall|i: int| 0 <= i < s.len() ==> is_digit(#[trigger] s[i])
}

/// The value of the decimal digits `s`.
pub open spec fn decimal_value(s: Seq<char>) -> nat
    decreases s.len(),
{
    if s.len() == 0 {
        0
    } else {
        (decimal_value(s.drop_last()) * 10 + (s.last() as nat - '0' as nat)) as nat
    }
}

/// What `from_str` gives for an unsigned integer type whose largest value
/// is `max`: an optional `+` followed by at least one digit, the value not
/// above `max`.
pub open spec fn parse_unsigned_spec(s: Seq<char>, max: int) -> Option<int> {
    let body = if s.len() > 0 && s[0] == '+' { s.drop_first() } else { s };
    if body.len() > 0 && all_digits(body) && decimal_value(body) <= max {
        Some(decimal_value(body) as int)
    } else {
        None
    }
}

/// What `i32::from_str` gives: an optional sign followed by at least one
/// digit, the value in range.
pub open spec fn parse_i32_spec(s: Seq<char>) -> Option<int> {
    if s.len() > 0 && s[0] == '-' {
        let body = s.drop_first();
        if body.len() > 0 && all_digits(body) && decimal_value(body) <= 0x8000_0000 {
            Some(-(decimal_value(body) as int))
        } else {
            None
        }
    } else {
        parse_unsigned_spec(s, i32::MAX as int)
    }
}

/// The value of the digits `s`, or `cap` if it is `cap` or more; none if
/// some character is not a digit.
fn digits_value_capped(s: &[char], cap: u128) -> (r: Option<u128>)
    requires
        cap < u128::MAX / 10,
    ensures
        match r {
            Some(v) => all_digits(s@) && v == (if decimal_value(s@) < cap { decimal_value(s@) as int } else { cap as int }),
            None => !all_digits(s@),
        },
{
    let mut v: u128 = 0;
    let mut i: usize = 0;
    while i < s.len()
        invariant
            cap < u128::MAX / 10,
            i <= s@.len(),
            all_digits(s@.subrange(0, i as int)),
            v == (if decimal_value(s@.subrange(0, i as int)) < cap { decimal_value(s@.subrange(0, i as int)) as int } else { cap as int }),
        decreases s@.len() - i,
    {
        let c = s[i];
        if !('0' <= c && c <= '9') {
            proof {
                assert(!is_digit(s@[i as int]));
            }
            return None;
        }
        let d = (c as u32 - '0' as u32) as u128;
        proof {
            assert(s@.subrange(0, i + 1).drop_last() =~= s@.subrange(0, i as int));
            assert(s@.subrange(0, i + 1).last() == c);
        }
        let next = v * 10 + d;
        v = if next < cap { next } else { cap };
        i += 1;
        proof {
            assert forall|t: int| 0 <= t < i implies is_digit(#[trigger] s@.subrange(0, i as int)[t]) by {
                if t < i - 1 {
                    assert(s@.subrange(0, i as int)[t] == s@.subrange(0, i - 1)[t]);
                }
            }
        }
    }
    proof { assert(s@.subrange(0, s@.len() as int) =~= s@); }
    Some(v)
}

/// Reads an unsigned decimal integer no larger than `max`, as `from_str`
/// does for unsigned types.
pub fn parse_unsigned(s: &[char], max: u64) -> (r: Option<u64>)
    ensures
        r == (match parse_unsigned_spec(s@, max as int) {
            Some(v) => Some(v as u64),
            None => None::<u64>,
        }),
{
    let body: Vec<char> = if s.len() > 0 && s[0] == '+' { substring(s, 1, s.len()) } else { substring(s, 0, s.len()) };
    proof {
        if s@.len() > 0 && s@[0] == '+' {
            assert(body@ =~= s@.drop_first());
        } else {
            assert(body@ =~= s@);
        }
    }
    if body.len() == 0 {
        return None;
    }
    match digits_value_capped(body.as_slice(), max as u128 + 1) {
        Some(v) => {
            if v <= max as u128 {
                Some(v as u64)
            } else {
                None
            }
        },
        None => None,
    }
}

/// Reads an `i32`, as `i32::from_str` does.
pub fn parse_i32(s: &[char]) -> (r: Option<i32>)
    ensures
        r == (match parse_i32_spec(s@) {
            Some(v) => Some(v as i32),
            None => None::<i32>,
        }),
{
    if s.len() > 0 && s[0] == '-' {
        let body = substring(s, 1, s.len());
        proof { assert(body@ =~= s@.drop_first()); }
        if body.len() == 0 {
            return None;
        }
        match digits_value_capped(body.as_slice(), 0x8000_0001) {
            Some(v) => {
                if v <= 0x8000_0000 {
                    Some((0 - (v as i128)) as i32)
                } else {
                    None
                }
            },
            None => None,
        }
    } else {
        match parse_unsigned(s, 0x7fff_ffff) {
            Some(v) => Some(v as i32),
            None => None,
        }
    }
}

/// `s` without the leading `p`, if it starts with `p`, as
/// `str::strip_prefix`.
pub open spec fn strip_prefix_spec(s: Seq<char>, p: Seq<char>) -> Option<Seq<char>> {
    if p.len() <= s.len() && s.subrange(0, p.len() as int) == p {
        Some(s.subrange(p.len() as int, s.len() as int))
    } else {
        None
    }
}

/// Removes the leading `p` from `s`, if `s` starts with it.
pub fn strip_prefix(s: &[char], p: &[char]) -> (r: Option<Vec<char>>)
    ensures
        match r {
            Some(v) => strip_prefix_spec(s@, p@) == Some(v@),
            None => strip_prefix_spec(s@, p@) is None,
        },
{
    let n = s.len();
    if p.len() > n {
        return None;
    }
    if matches_at(s, p, 0) {
        Some(substring(s, p.len(), n))
    } else {
        None
    }
}

/// The ASCII digits of `s`, in order.
pub open spec fn digits_of(s: Seq<char>) -> Seq<char> {
    s.filter(|c: char| is_digit(c))
}

/// The characters of `s` other than ASCII digits, in order.
pub open spec fn non_digits_of(s: Seq<char>) -> Seq<char> {
    s.filter(|c: char| !is_digit(c))
}

/// Parts `s` into its ASCII digits and its other characters, each kept in
/// order, as `Iterator::partition` with `char::is_ascii_digit`.
pub fn partition_digits(s: &[char]) -> (r: (Vec<char>, Vec<char>))
    ensures
        r.0@ == digits_of(s@),
        r.1@ == non_digits_of(s@),
{
    let mut digits: Vec<char> = Vec::new();
    let mut others: Vec<char> = Vec::new();
    let n = s.len();
    let mut i: usize = 0;
    while i < n
        invariant
            n == s@.len(),
            i <= n,
            digits@ == s@.subrange(0, i as int).filter(|c: char| is_digit(c)),
            others@ == s@.subrange(0, i as int).filter(|c: char| !is_digit(c)),
        decreases n - i,
    {
        let c = s[i];
        proof {
            reveal_with_fuel(Seq::<_>::filter, 1);
            assert(s@.subrange(0, i + 1).drop_last() =~= s@.subrange(0, i as int));
            assert(s@.subrange(0, i + 1).last() == c);
        }
        if '0' <= c && c <= '9' {
            digits.push(c);
        } else {
            others.push(c);
        }
        i += 1;
    }
    proof { assert(s@.subrange(0, n as int) =~= s@); }
    (digits, others)
}

/// Whether `s` holds exactly the characters of `lit`.
pub fn eq_str(s: &[char], lit: &str) -> (b: bool)
    ensures
        b == (s@ == lit@),
{
    let l = chars_of(lit);
    if l.len() != s.len() {
        return false;
    }
    let r = matches_at(s, l.as_slice(), 0);
    proof {
        assert(s@.subrange(0, l@.len() as int) =~= s@);
    }
    r
}

} // verus!
