//! Cache-key derivation and code-point request parsing.
//!
//! A request arrives as a comma-separated list of decimal code points; it is
//! parsed into a set of `u32` values. The cache key canonicalizes such a set:
//! the values are sorted ascending and joined, so that any permutation of the
//! same multiset of code points addresses the same artifact.

use vstd::prelude::*;
use vstd::seq_lib::*;
use vstd::relations::sorted_by;
use vstd::string::*;

use crate::error::AppError;

verus! {

// ---------------------------------------------------------------------------
// Character classes and numeric value of digit strings
// ---------------------------------------------------------------------------

/// ASCII decimal digit.
pub open spec fn is_digit_char(c: char) -> bool {
    48 <= c as u32 <= 57
}

/// Whitespace accepted around a code point in a request: the Unicode
/// `White_Space` class, exactly what decimal integer parsing trims.
pub open spec fn is_space_char(c: char) -> bool {
    let u = c as u32;
    ||| u == 9
    ||| u == 10
    ||| u == 11
    ||| u == 12
    ||| u == 13
    ||| u == 32
    ||| u == 0x85
    ||| u == 0xA0
    ||| u == 0x1680
    ||| 0x2000 <= u <= 0x200A
    ||| u == 0x2028
    ||| u == 0x2029
    ||| u == 0x202F
    ||| u == 0x205F
    ||| u == 0x3000
}

/// Comma, the separator of a code-point request.
pub open spec fn is_comma_char(c: char) -> bool {
    c as u32 == 44
}

/// Plus sign, the optional leading sign of a decimal integer.
pub open spec fn is_plus_char(c: char) -> bool {
    c as u32 == 43
}

/// Numeric value of a digit string, most significant digit first.
pub open spec fn digits_val(s: Seq<char>) -> int
    decreases s.len(),
{
    if s.len() == 0 {
        0
    } else {
        digits_val(s.drop_last()) * 10 + (s.last() as u32 - 48)
    }
}

pub open spec fn all_digits(s: Seq<char>) -> bool {
    forall|i: int| 0 <= i < s.len() ==> is_digit_char(s[i])
}

/// A sequence none of whose elements satisfies a predicate filters to empty.
pub proof fn lemma_filter_none<A>(s: Seq<A>, pred: spec_fn(A) -> bool)
    requires
        forall|i: int| 0 <= i < s.len() ==> !pred(s[i]),
    ensures
        s.filter(pred) =~= Seq::<A>::empty(),
    decreases s.len(),
{
    reveal(Seq::filter);
    if s.len() > 0 {
        assert(forall|i: int| 0 <= i < s.drop_last().len() ==> !pred(s.drop_last()[i]));
        lemma_filter_none(s.drop_last(), pred);
    }
}

proof fn lemma_digits_val_nonneg(s: Seq<char>)
    requires
        all_digits(s),
    ensures
        digits_val(s) >= 0,
    decreases s.len(),
{
    if s.len() > 0 {
        assert(is_digit_char(s[s.len() - 1]));
        assert(all_digits(s.drop_last()));
        lemma_digits_val_nonneg(s.drop_last());
        assert(digits_val(s) == digits_val(s.drop_last()) * 10 + (s.last() as u32 - 48));
    }
}

/// The value of a digit string is at least the value of any of its prefixes.
proof fn lemma_digits_val_prefix_le(s: Seq<char>, i: int)
    requires
        all_digits(s),
        0 <= i <= s.len(),
    ensures
        digits_val(s.subrange(0, i)) <= digits_val(s),
    decreases s.len() - i,
{
    if i == s.len() {
        assert(s.subrange(0, i) =~= s);
    } else {
        assert(is_digit_char(s[s.len() - 1]));
        assert(all_digits(s.drop_last()));
        assert(s.drop_last().subrange(0, i) =~= s.subrange(0, i));
        lemma_digits_val_prefix_le(s.drop_last(), i);
        lemma_digits_val_nonneg(s.drop_last());
        assert(digits_val(s) == digits_val(s.drop_last()) * 10 + (s.last() as u32 - 48));
    }
}

// ---------------------------------------------------------------------------
// Trimming and one-token parsing
// ---------------------------------------------------------------------------

pub open spec fn trim_start(s: Seq<char>) -> Seq<char>
    decreases s.len(),
{
    if s.len() > 0 && is_space_char(s[0]) {
        trim_start(s.drop_first())
    } else {
        s
    }
}

pub open spec fn trim_end(s: Seq<char>) -> Seq<char>
    decreases s.len(),
{
    if s.len() > 0 && is_space_char(s.last()) {
        trim_end(s.drop_last())
    } else {
        s
    }
}

/// A token with surrounding whitespace removed.
pub open spec fn trim(s: Seq<char>) -> Seq<char> {
    trim_end(trim_start(s))
}

/// An optional leading `+` sign, as accepted by decimal integer parsing.
pub open spec fn strip_plus(s: Seq<char>) -> Seq<char> {
    if s.len() > 0 && is_plus_char(s[0]) {
        s.drop_first()
    } else {
        s
    }
}

/// The code point denoted by one comma-separated token, if any: after
/// trimming and an optional `+`, a non-empty run of decimal digits whose
/// value fits in `u32`.
pub open spec fn parse_u32_spec(t: Seq<char>) -> Option<u32> {
    let d = strip_plus(trim(t));
    if d.len() > 0 && all_digits(d) && digits_val(d) <= u32::MAX as int {
        Some(digits_val(d) as u32)
    } else {
        None
    }
}

proof fn lemma_trim_start_at(s: Seq<char>, j: int)
    requires
        0 <= j <= s.len(),
        forall|i: int| 0 <= i < j ==> is_space_char(s[i]),
        j < s.len() ==> !is_space_char(s[j]),
    ensures
        trim_start(s) =~= s.subrange(j, s.len() as int),
    decreases j,
{
    if j == 0 {
        assert(s.subrange(0, s.len() as int) =~= s);
    } else {
        lemma_trim_start_at(s.drop_first(), j - 1);
        assert(s.drop_first().subrange(j - 1, s.drop_first().len() as int) =~= s.subrange(
            j,
            s.len() as int,
        ));
    }
}

proof fn lemma_trim_end_at(s: Seq<char>, h: int)
    requires
        0 <= h <= s.len(),
        forall|i: int| h <= i < s.len() ==> is_space_char(s[i]),
        h > 0 ==> !is_space_char(s[h - 1]),
    ensures
        trim_end(s) =~= s.subrange(0, h),
    decreases s.len(),
{
    if h < s.len() {
        lemma_trim_end_at(s.drop_last(), h);
        assert(s.drop_last().subrange(0, h) =~= s.subrange(0, h));
    } else {
        if s.len() > 0 {
            assert(!is_space_char(s.last()));
        }
        assert(s.subrange(0, h) =~= s);
    }
}

// ---------------------------------------------------------------------------
// Splitting a request on commas
// ---------------------------------------------------------------------------

/// The comma-separated tokens of a request string; an empty string yields a
/// single empty token, and every comma separates two (possibly empty) tokens.
pub open spec fn split_commas(s: Seq<char>) -> Seq<Seq<char>>
    decreases s.len(),
{
    if s.len() == 0 {
        seq![Seq::<char>::empty()]
    } else if is_comma_char(s[0]) {
        seq![Seq::<char>::empty()] + split_commas(s.drop_first())
    } else {
        let rest = split_commas(s.drop_first());
        seq![seq![s[0]] + rest[0]] + rest.subrange(1, rest.len() as int)
    }
}

pub proof fn lemma_split_commas_len(s: Seq<char>)
    ensures
        split_commas(s).len() >= 1,
    decreases s.len(),
{
    if s.len() > 0 {
        lemma_split_commas_len(s.drop_first());
    }
}

/// Splitting off the first token: if no comma occurs before position `k`,
/// the first token is `s[..k]` and the rest splits `s[k+1..]`.
proof fn lemma_split_first(s: Seq<char>, k: int)
    requires
        0 <= k <= s.len(),
        forall|j: int| 0 <= j < k ==> !is_comma_char(s[j]),
        k < s.len() ==> is_comma_char(s[k]),
    ensures
        k == s.len() ==> split_commas(s) =~= seq![s],
        k < s.len() ==> split_commas(s) =~= seq![s.subrange(0, k)] + split_commas(
            s.subrange(k + 1, s.len() as int),
        ),
    decreases k,
{
    lemma_split_commas_len(s);
    if k == 0 {
        if k < s.len() {
            assert(is_comma_char(s[0]));
            assert(s.subrange(0, 0) =~= Seq::<char>::empty());
            assert(s.subrange(1, s.len() as int) =~= s.drop_first());
        } else {
            assert(s =~= Seq::<char>::empty());
        }
    } else {
        let d = s.drop_first();
        lemma_split_first(d, k - 1);
        lemma_split_commas_len(d);
        let rest = split_commas(d);
        if k == s.len() {
            assert(split_commas(d) =~= seq![d]);
            assert(seq![s[0]] + rest[0] =~= s);
            assert(rest.subrange(1, rest.len() as int) =~= Seq::<Seq<char>>::empty());
        } else {
            assert(rest =~= seq![d.subrange(0, k - 1)] + split_commas(
                d.subrange(k, d.len() as int),
            ));
            assert(seq![s[0]] + rest[0] =~= s.subrange(0, k));
            assert(d.subrange(k, d.len() as int) =~= s.subrange(k + 1, s.len() as int));
            assert(rest.subrange(1, rest.len() as int) =~= split_commas(
                s.subrange(k + 1, s.len() as int),
            ));
        }
    }
}

/// Every comma-separated token denotes a code point.
pub open spec fn codepoints_ok(s: Seq<char>) -> bool {
    forall|i: int|
        0 <= i < split_commas(s).len() ==> #[trigger] parse_u32_spec(split_commas(s)[i]) is Some
}

/// The code points denoted by a request string whose tokens all parse.
pub open spec fn parsed_codepoints(s: Seq<char>) -> Seq<u32> {
    Seq::new(split_commas(s).len(), |i: int| parse_u32_spec(split_commas(s)[i]).unwrap())
}

// ---------------------------------------------------------------------------
// Executable parsing
// ---------------------------------------------------------------------------

fn char_at(cs: &Vec<char>, i: usize) -> (c: char)
    requires
        i < cs@.len(),
    ensures
        c == cs@[i as int],
{
    cs[i]
}

fn space_at(cs: &Vec<char>, i: usize) -> (r: bool)
    requires
        i < cs@.len(),
    ensures
        r == is_space_char(cs@[i as int]),
{
    let c = cs[i] as u32;
    c == 9 || c == 10 || c == 11 || c == 12 || c == 13 || c == 32 || c == 0x85 || c == 0xA0
        || c == 0x1680 || (0x2000 <= c && c <= 0x200A) || c == 0x2028 || c == 0x2029 || c == 0x202F
        || c == 0x205F || c == 0x3000
}

fn plus_at(cs: &Vec<char>, i: usize) -> (r: bool)
    requires
        i < cs@.len(),
    ensures
        r == is_plus_char(cs@[i as int]),
{
    let c = cs[i] as u32;
    c == 43
}

fn comma_at(cs: &Vec<char>, i: usize) -> (r: bool)
    requires
        i < cs@.len(),
    ensures
        r == is_comma_char(cs@[i as int]),
{
    let c = cs[i] as u32;
    c == 44
}

/// Parses the token `cs[start..end]` exactly as `parse_u32_spec` describes.
fn parse_token(cs: &Vec<char>, start: usize, end: usize) -> (r: Option<u32>)
    requires
        start <= end <= cs@.len(),
    ensures
        r == parse_u32_spec(cs@.subrange(start as int, end as int)),
{
    let ghost t = cs@.subrange(start as int, end as int);
    let mut lo = start;
    let mut hi = end;
    while lo < hi && space_at(cs, lo)
        invariant
            start <= lo <= hi,
            hi == end <= cs@.len(),
            forall|j: int| start <= j < lo ==> is_space_char(cs@[j]),
        decreases hi - lo,
    {
        lo = lo + 1;
    }
    proof {
        lemma_trim_start_at(t, lo - start);
        assert(trim_start(t) =~= cs@.subrange(lo as int, end as int));
    }
    while hi > lo && space_at(cs, hi - 1)
        invariant
            start <= lo <= hi <= end <= cs@.len(),
            forall|j: int| hi <= j < end ==> is_space_char(cs@[j]),
            trim_start(t) =~= cs@.subrange(lo as int, end as int),
            lo < end ==> !is_space_char(cs@[lo as int]),
        decreases hi,
    {
        hi = hi - 1;
    }
    proof {
        lemma_trim_end_at(trim_start(t), hi - lo);
        assert(trim(t) =~= cs@.subrange(lo as int, hi as int));
    }
    // optional leading '+'
    let mut dlo = lo;
    if lo < hi && plus_at(cs, lo) {
        dlo = lo + 1;
        proof {
            assert(strip_plus(trim(t)) =~= cs@.subrange(dlo as int, hi as int));
        }
    } else {
        proof {
            assert(strip_plus(trim(t)) =~= cs@.subrange(dlo as int, hi as int));
        }
    }
    let ghost d = cs@.subrange(dlo as int, hi as int);
    proof {
        assert(d == strip_plus(trim(t)));
    }
    if dlo == hi {
        return None;
    }
    // accumulate the decimal value, rejecting non-digits and overflow
    let mut val: u64 = 0;
    let mut i = dlo;
    while i < hi
        invariant
            start <= dlo <= i <= hi <= end <= cs@.len(),
            t == cs@.subrange(start as int, end as int),
            d == cs@.subrange(dlo as int, hi as int),
            d == strip_plus(trim(t)),
            forall|j: int| 0 <= j < i - dlo ==> is_digit_char(d[j]),
            val == digits_val(d.subrange(0, i - dlo)),
            val <= u32::MAX,
        decreases hi - i,
    {
        let c = char_at(cs, i) as u32;
        if !(48 <= c && c <= 57) {
            proof {
                assert(d[i - dlo] == cs@[i as int]);
                assert(!is_digit_char(d[i - dlo]));
                assert(!all_digits(d));
                assert(strip_plus(trim(t)) == d);
                assert(parse_u32_spec(t) is None);
            }
            return None;
        }
        let dv = (c - 48) as u64;
        let next = val * 10 + dv;
        proof {
            assert(d.subrange(0, i - dlo + 1).drop_last() =~= d.subrange(0, i - dlo));
            assert(d.subrange(0, i - dlo + 1).last() == d[i - dlo]);
        }
        if next > u32::MAX as u64 {
            proof {
                let pfx = d.subrange(0, i - dlo + 1);
                assert(d[i - dlo] == cs@[i as int]);
                if all_digits(d) {
                    lemma_digits_val_prefix_le(d, i - dlo + 1);
                    assert(digits_val(pfx) == val * 10 + (d[i - dlo] as u32 - 48));
                    assert(digits_val(pfx) == next);
                    assert(digits_val(d) > u32::MAX as int);
                }
                assert(strip_plus(trim(t)) == d);
                assert(parse_u32_spec(t) is None);
            }
            return None;
        }
        val = next;
        i = i + 1;
    }
    proof {
        assert(d.subrange(0, d.len() as int) =~= d);
        assert(all_digits(d));
        assert(d.len() > 0);
        assert(digits_val(d) == val as int);
    }
    Some(val as u32)
}

/// Parses a comma-separated list of decimal Unicode code points, trimming
/// whitespace around each entry. Fails exactly when some entry fails to
/// denote a `u32` code point (in particular on an empty string).
pub fn parse_codepoints(chars_str: &str) -> (r: Result<Vec<u32>, AppError>)
    ensures
        match r {
            Ok(v) => codepoints_ok(chars_str@) && v@ == parsed_codepoints(chars_str@),
            Err(e) => e is InvalidInput && !codepoints_ok(chars_str@),
        },
{
    let ghost s = chars_str@;
    let n: usize = chars_str.unicode_len();
    let mut cs: Vec<char> = Vec::new();
    let mut i: usize = 0;
    while i < n
        invariant
            i <= n == s.len(),
            chars_str@ == s,
            cs@ =~= s.subrange(0, i as int),
        decreases n - i,
    {
        cs.push(chars_str.get_char(i));
        i = i + 1;
    }
    proof {
        assert(cs@ =~= s);
    }

    let mut result: Vec<u32> = Vec::new();
    let ghost mut toks: Seq<Seq<char>> = Seq::empty();
    let mut pos: usize = 0;
    proof {
        assert(s.subrange(0, n as int) =~= s);
        assert(Seq::<Seq<char>>::empty() + split_commas(s) =~= split_commas(s));
    }
    loop
        invariant
            pos <= n == s.len(),
            chars_str@ == s,
            cs@ == s,
            split_commas(s) =~= toks + split_commas(s.subrange(pos as int, n as int)),
            result@.len() == toks.len(),
            forall|j: int|
                0 <= j < toks.len() ==> #[trigger] parse_u32_spec(toks[j]) == Some(result@[j]),
        decreases n - pos,
    {
        proof {
            lemma_split_commas_len(s.subrange(pos as int, n as int));
        }
        let mut k: usize = pos;
        while k < n && !comma_at(&cs, k)
            invariant
                pos <= k <= n,
                cs@ == s,
                n == s.len(),
                forall|j: int| pos <= j < k ==> !is_comma_char(s[j]),
            decreases n - k,
        {
            k = k + 1;
        }
        let ghost rem = s.subrange(pos as int, n as int);
        proof {
            assert(k < n ==> is_comma_char(s[k as int]));
            lemma_split_first(rem, k - pos);
        }
        let parsed = parse_token(&cs, pos, k);
        let ghost tok = s.subrange(pos as int, k as int);
        proof {
            assert(rem.subrange(0, k - pos) =~= tok);
            assert(k == n ==> rem =~= tok);
        }
        match parsed {
            None => {
                proof {
                    let idx: int = toks.len() as int;
                    lemma_split_commas_len(rem);
                    assert(split_commas(rem)[0] == tok);
                    assert(split_commas(s)[idx] == tok);
                    assert(parse_u32_spec(split_commas(s)[idx]) is None);
                    assert(!codepoints_ok(s));
                }
                return Err(AppError::InvalidInput);
            },
            Some(v) => {
                result.push(v);
                proof {
                    toks = toks.push(tok);
                }
            },
        }
        if k == n {
            proof {
                assert(split_commas(rem) =~= seq![tok]);
                assert(split_commas(s) =~= toks);
                assert forall|j: int| 0 <= j < split_commas(s).len() implies #[trigger] parse_u32_spec(
                    split_commas(s)[j],
                ) is Some by {
                    assert(parse_u32_spec(toks[j]) == Some(result@[j]));
                }
                assert(result@ =~= parsed_codepoints(s));
            }
            return Ok(result);
        }
        proof {
            assert(rem.subrange(k - pos + 1, rem.len() as int) =~= s.subrange(
                k + 1,
                n as int,
            ));
            assert(split_commas(rem) =~= seq![tok] + split_commas(s.subrange(k + 1, n as int)));
            assert(split_commas(s) =~= toks + split_commas(s.subrange(k + 1, n as int)));
        }
        pos = k + 1;
    }
}

} // verus!

verus! {

// ---------------------------------------------------------------------------
// Canonical cache file names
// ---------------------------------------------------------------------------

/// The digit character for a value below ten.
pub open spec fn digit_char(d: int) -> char
    recommends
        0 <= d < 10,
{
    (d + 48) as char
}

/// Decimal rendering of a non-negative number, most significant digit first.
pub open spec fn dec_digits(n: int) -> Seq<char>
    decreases n,
{
    if n < 10 {
        seq![digit_char(n)]
    } else {
        dec_digits(n / 10).push(digit_char(n % 10))
    }
}

/// Ascending order on code points.
pub open spec fn cp_leq() -> spec_fn(u32, u32) -> bool {
    |a: u32, b: u32| a <= b
}

/// The canonical ascending arrangement of a code-point request. Duplicates
/// are kept: the key canonicalizes order, not multiplicity.
pub open spec fn sorted_codepoints(s: Seq<u32>) -> Seq<u32> {
    s.sort_by(cp_leq())
}

proof fn lemma_cp_leq_total()
    ensures
        vstd::relations::total_ordering(cp_leq()),
{
    let leq = cp_leq();
    assert forall|a: u32, b: u32| #[trigger] leq(a, b) || #[trigger] leq(b, a) by {
        assert(leq(a, b) == (a <= b));
        assert(leq(b, a) == (b <= a));
    }
    assert(vstd::relations::reflexive(leq)) by {
        assert forall|a: u32| #[trigger] leq(a, a) by {
            assert(leq(a, a) == (a <= a));
        }
    }
    assert(vstd::relations::antisymmetric(leq)) by {
        assert forall|a: u32, b: u32| #[trigger] leq(a, b) && #[trigger] leq(b, a) implies a == b by {
            assert(leq(a, b) == (a <= b));
            assert(leq(b, a) == (b <= a));
        }
    }
    assert(vstd::relations::transitive(leq)) by {
        assert forall|a: u32, b: u32, c: u32| #[trigger] leq(a, b) && #[trigger] leq(b, c) implies leq(
            a,
            c,
        ) by {
            assert(leq(a, b) == (a <= b));
            assert(leq(b, c) == (b <= c));
            assert(leq(a, c) == (a <= c));
        }
    }
    assert(vstd::relations::strongly_connected(leq));
}

/// The sorted values joined by commas, each rendered in decimal.
pub open spec fn join_commas(s: Seq<u32>) -> Seq<char>
    decreases s.len(),
{
    if s.len() == 0 {
        Seq::empty()
    } else if s.len() == 1 {
        dec_digits(s[0] as int)
    } else {
        join_commas(s.drop_last()) + seq![','] + dec_digits(s.last() as int)
    }
}

/// The artifact file name addressed by a canonically sorted code-point
/// sequence: a single code point is stored flat as `<value>.woff2`, several
/// are stored under `cache/` joined by commas.
pub open spec fn cache_filename_spec(sorted: Seq<u32>) -> Seq<char> {
    if sorted.len() == 1 {
        dec_digits(sorted[0] as int) + ".woff2"@
    } else {
        "cache/"@ + join_commas(sorted) + ".woff2"@
    }
}

fn digit_str(d: u32) -> (r: &'static str)
    requires
        d < 10,
    ensures
        r@ =~= seq![digit_char(d as int)],
{
    proof {
        reveal_strlit("0");
        reveal_strlit("1");
        reveal_strlit("2");
        reveal_strlit("3");
        reveal_strlit("4");
        reveal_strlit("5");
        reveal_strlit("6");
        reveal_strlit("7");
        reveal_strlit("8");
        reveal_strlit("9");
    }
    match d {
        0 => "0",
        1 => "1",
        2 => "2",
        3 => "3",
        4 => "4",
        5 => "5",
        6 => "6",
        7 => "7",
        8 => "8",
        _ => "9",
    }
}

/// Renders a code point in decimal.
fn u32_to_string(n: u32) -> (r: String)
    ensures
        r@ == dec_digits(n as int),
    decreases n,
{
    if n < 10 {
        String::from_str(digit_str(n))
    } else {
        let mut s = u32_to_string(n / 10);
        s.append(digit_str(n % 10));
        proof {
            assert(dec_digits(n as int) == dec_digits(n as int / 10).push(
                digit_char(n as int % 10),
            ));
            assert(dec_digits(n as int / 10) + seq![digit_char(n as int % 10)] =~= dec_digits(
                n as int,
            ));
        }
        s
    }
}

/// Inserts a code point into an ascending vector, keeping it ascending.
fn insert_sorted(v: &mut Vec<u32>, x: u32)
    requires
        sorted_by(old(v)@, cp_leq()),
    ensures
        sorted_by(final(v)@, cp_leq()),
        final(v)@.to_multiset() == old(v)@.to_multiset().insert(x),
{
    let mut i: usize = 0;
    while i < v.len() && v[i] <= x
        invariant
            i <= v@.len(),
            v@ == old(v)@,
            forall|j: int| 0 <= j < i ==> v@[j] <= x,
        decreases v@.len() - i,
    {
        i = i + 1;
    }
    let ghost pre = v@;
    v.insert(i, x);
    proof {
        assert(v@ == pre.subrange(0, i as int).push(x) + pre.subrange(i as int, pre.len() as int));
        assert forall|p: int, q: int| 0 <= p <= q < v@.len() implies cp_leq()(v@[p], v@[q]) by {
            assert(cp_leq()(v@[p], v@[q]) == (v@[p] <= v@[q]));
            if p < i && q >= i + 1 {
                assert(cp_leq()(pre[p], pre[q - 1]) == (pre[p] <= pre[q - 1]));
            } else if p < i && q == i {
                assert(v@[q] == x);
            } else if p == i && q > i {
                assert(v@[p] == x);
                assert(i < pre.len());
                assert(!(pre[i as int] <= x));
                assert(cp_leq()(pre[i as int], pre[q - 1]) == (pre[i as int] <= pre[q - 1]));
            } else if p >= i + 1 && q >= i + 1 {
                assert(cp_leq()(pre[p - 1], pre[q - 1]) == (pre[p - 1] <= pre[q - 1]));
            }
        }
        assert(sorted_by(v@, cp_leq()));
        let left = pre.subrange(0, i as int);
        let right = pre.subrange(i as int, pre.len() as int);
        lemma_multiset_commutative(left.push(x), right);
        lemma_multiset_commutative(left, right);
        left.to_multiset_ensures();
        assert(left + right =~= pre);
        assert(v@.to_multiset() =~= pre.to_multiset().insert(x));
    }
}

/// Derives the canonical cache file name for a code-point request: the values
/// sorted ascending, duplicates kept, rendered in decimal, and addressed flat
/// for a single value or under `cache/` for several.
pub fn generate_cache_filename(codepoints: &[u32]) -> (r: String)
    ensures
        r@ == cache_filename_spec(sorted_codepoints(codepoints@)),
{
    proof {
        lemma_cp_leq_total();
        codepoints@.lemma_sort_by_ensures(cp_leq());
    }
    let ghost target = sorted_codepoints(codepoints@);
    let mut sorted: Vec<u32> = Vec::new();
    let mut i: usize = 0;
    proof {
        assert(sorted@ =~= codepoints@.subrange(0, 0));
    }
    while i < codepoints.len()
        invariant
            i <= codepoints@.len(),
            sorted_by(sorted@, cp_leq()),
            sorted@.to_multiset() == codepoints@.subrange(0, i as int).to_multiset(),
        decreases codepoints@.len() - i,
    {
        let x = codepoints[i];
        insert_sorted(&mut sorted, x);
        proof {
            codepoints@.subrange(0, i as int).to_multiset_ensures();
            assert(codepoints@.subrange(0, i + 1).drop_last() =~= codepoints@.subrange(
                0,
                i as int,
            ));
            assert(codepoints@.subrange(0, i + 1) =~= codepoints@.subrange(0, i as int).push(
                codepoints@[i as int],
            ));
            codepoints@.subrange(0, i as int).to_multiset_ensures();
        }
        i = i + 1;
    }
    proof {
        assert(codepoints@.subrange(0, codepoints@.len() as int) =~= codepoints@);
        lemma_cp_leq_total();
        codepoints@.lemma_sort_by_ensures(cp_leq());
        lemma_sorted_unique(sorted@, target, cp_leq());
        assert(sorted@ == target);
    }
    if sorted.len() == 1 {
        let mut s = u32_to_string(sorted[0]);
        s.append(".woff2");
        proof {
            assert(s@ =~= cache_filename_spec(target));
        }
        s
    } else {
        let mut s = String::from_str("cache/");
        let mut j: usize = 0;
        while j < sorted.len()
            invariant
                j <= sorted@.len(),
                sorted@ == target,
                s@ == "cache/"@ + join_commas(sorted@.subrange(0, j as int)),
            decreases sorted@.len() - j,
        {
            if j > 0 {
                s.append(",");
                proof {
                    reveal_strlit(",");
                }
            }
            let d = u32_to_string(sorted[j]);
            s.append(d.as_str());
            proof {
                let pfx = sorted@.subrange(0, j + 1);
                assert(pfx.drop_last() =~= sorted@.subrange(0, j as int));
                assert(pfx.last() == sorted@[j as int]);
                if j == 0 {
                    assert(s@ =~= "cache/"@ + join_commas(pfx));
                } else {
                    assert(join_commas(pfx) == join_commas(pfx.drop_last()) + seq![','] + dec_digits(
                        pfx.last() as int,
                    ));
                    assert(","@ =~= seq![',']);
                    assert(s@ =~= "cache/"@ + join_commas(pfx));
                }
            }
            j = j + 1;
        }
        s.append(".woff2");
        proof {
            assert(sorted@.subrange(0, sorted@.len() as int) =~= sorted@);
            assert(s@ =~= cache_filename_spec(target));
        }
        s
    }
}

proof fn lemma_dec_digits_len(n: int)
    ensures
        dec_digits(n).len() >= 1,
        n >= 10 ==> dec_digits(n).len() >= 2,
    decreases n,
{
    if n >= 10 {
        lemma_dec_digits_len(n / 10);
    }
}

/// Decimal rendering is injective on the non-negative numbers.
proof fn lemma_dec_digits_injective(a: int, b: int)
    requires
        a >= 0,
        b >= 0,
        dec_digits(a) == dec_digits(b),
    ensures
        a == b,
    decreases a,
{
    lemma_dec_digits_len(a);
    lemma_dec_digits_len(b);
    if a < 10 && b < 10 {
        assert(dec_digits(a)[0] == digit_char(a));
        assert(dec_digits(b)[0] == digit_char(b));
        assert(digit_char(a) as u32 == a + 48);
        assert(digit_char(b) as u32 == b + 48);
    } else if a >= 10 && b >= 10 {
        assert(dec_digits(a).last() == digit_char(a % 10));
        assert(dec_digits(b).last() == digit_char(b % 10));
        assert(digit_char(a % 10) as u32 == a % 10 + 48);
        assert(digit_char(b % 10) as u32 == b % 10 + 48);
        assert(a % 10 == b % 10);
        assert(dec_digits(a).drop_last() =~= dec_digits(a / 10));
        assert(dec_digits(b).drop_last() =~= dec_digits(b / 10));
        lemma_dec_digits_injective(a / 10, b / 10);
    } else if a < 10 {
        assert(dec_digits(a).len() == 1);
        assert(dec_digits(b).len() >= 2);
    } else {
        assert(dec_digits(b).len() == 1);
        assert(dec_digits(a).len() >= 2);
    }
}

/// Decimal renderings hold digits only, never a comma.
proof fn lemma_dec_digits_all_digits(n: int)
    requires
        n >= 0,
    ensures
        all_digits(dec_digits(n)),
    decreases n,
{
    if n < 10 {
        assert(digit_char(n) as u32 == n + 48);
        assert(is_digit_char(dec_digits(n)[0]));
    } else {
        lemma_dec_digits_all_digits(n / 10);
        assert(digit_char(n % 10) as u32 == n % 10 + 48);
        assert forall|i: int| 0 <= i < dec_digits(n).len() implies is_digit_char(
            dec_digits(n)[i],
        ) by {
            if i < dec_digits(n).len() - 1 {
                assert(dec_digits(n)[i] == dec_digits(n / 10)[i]);
            }
        }
    }
}

/// The last comma of a joined sequence of two or more values stands right
/// after the join of the rest; only digits follow it.
proof fn lemma_join_decomp(s: Seq<u32>)
    requires
        s.len() >= 2,
    ensures
        join_commas(s).len() == join_commas(s.drop_last()).len() + 1 + dec_digits(
            s.last() as int,
        ).len(),
        is_comma_char(join_commas(s)[join_commas(s.drop_last()).len() as int]),
        forall|i: int|
            join_commas(s.drop_last()).len() < i < join_commas(s).len() ==> is_digit_char(
                #[trigger] join_commas(s)[i],
            ),
{
    lemma_dec_digits_all_digits(s.last() as int);
    assert(','  as u32 == 44);
}

/// A joined sequence of at most one value holds digits only, no comma.
proof fn lemma_join_short_digits(s: Seq<u32>)
    requires
        s.len() <= 1,
    ensures
        all_digits(join_commas(s)),
{
    if s.len() == 1 {
        lemma_dec_digits_all_digits(s[0] as int);
    }
}

/// Joining code points by commas is injective: the digits of each value never
/// hold a comma, so the rendered blocks can be read back unambiguously.
proof fn lemma_join_injective(a: Seq<u32>, b: Seq<u32>)
    requires
        join_commas(a) == join_commas(b),
    ensures
        a == b,
    decreases a.len(),
{
    lemma_dec_digits_len(if a.len() > 0 { a.last() as int } else { 0 });
    lemma_dec_digits_len(if b.len() > 0 { b.last() as int } else { 0 });
    if a.len() == 0 || b.len() == 0 {
        if a.len() == 0 && b.len() == 0 {
            assert(a =~= b);
        } else if a.len() == 0 {
            if b.len() == 1 {
                lemma_dec_digits_len(b[0] as int);
                assert(join_commas(b).len() >= 1);
            } else {
                lemma_join_decomp(b);
            }
            assert(false);
        } else {
            if a.len() == 1 {
                lemma_dec_digits_len(a[0] as int);
            } else {
                lemma_join_decomp(a);
            }
            assert(false);
        }
    } else if a.len() == 1 && b.len() == 1 {
        lemma_dec_digits_injective(a[0] as int, b[0] as int);
        assert(a =~= b);
    } else if a.len() == 1 {
        lemma_join_short_digits(a);
        lemma_join_decomp(b);
        let pb = join_commas(b.drop_last()).len() as int;
        assert(is_comma_char(join_commas(a)[pb]));
        assert(is_digit_char(join_commas(a)[pb]));
        assert(false);
    } else if b.len() == 1 {
        lemma_join_short_digits(b);
        lemma_join_decomp(a);
        let pa = join_commas(a.drop_last()).len() as int;
        assert(is_comma_char(join_commas(b)[pa]));
        assert(is_digit_char(join_commas(b)[pa]));
        assert(false);
    } else {
        lemma_join_decomp(a);
        lemma_join_decomp(b);
        let x = join_commas(a);
        let pa = join_commas(a.drop_last()).len() as int;
        let pb = join_commas(b.drop_last()).len() as int;
        assert(pa == pb) by {
            if pa < pb {
                assert(is_comma_char(x[pb]));
                assert(is_digit_char(x[pb]));
            }
            if pb < pa {
                assert(is_comma_char(x[pa]));
                assert(is_digit_char(x[pa]));
            }
        }
        assert(join_commas(a.drop_last()) =~= x.subrange(0, pa));
        assert(join_commas(b.drop_last()) =~= x.subrange(0, pa));
        assert(dec_digits(a.last() as int) =~= x.subrange(pa + 1, x.len() as int));
        assert(dec_digits(b.last() as int) =~= x.subrange(pa + 1, x.len() as int));
        lemma_dec_digits_injective(a.last() as int, b.last() as int);
        lemma_join_injective(a.drop_last(), b.drop_last());
        assert(a.len() == b.len()) by {
            assert(a.drop_last().len() == b.drop_last().len());
        }
        assert forall|i: int| 0 <= i < a.len() implies a[i] == b[i] by {
            if i < a.len() - 1 {
                assert(a[i] == a.drop_last()[i]);
                assert(b[i] == b.drop_last()[i]);
            } else {
                assert(a[i] == a.last());
                assert(b[i] == b.last());
            }
        }
        assert(a =~= b);
    }
}

/// Distinct value sequences derive distinct cache file names: together with
/// key determinism, the key is byte-identical exactly when the sorted value
/// sequences coincide.
pub proof fn lemma_cache_key_injective(a: Seq<u32>, b: Seq<u32>)
    requires
        a != b,
    ensures
        cache_filename_spec(a) != cache_filename_spec(b),
{
    reveal_strlit("cache/");
    reveal_strlit(".woff2");
    if cache_filename_spec(a) == cache_filename_spec(b) {
        if a.len() == 1 && b.len() == 1 {
            let fa = dec_digits(a[0] as int);
            let fb = dec_digits(b[0] as int);
            assert(fa + ".woff2"@ == fb + ".woff2"@);
            assert(fa.len() == fb.len());
            assert(fa =~= (fa + ".woff2"@).subrange(0, fa.len() as int));
            assert(fb =~= (fb + ".woff2"@).subrange(0, fb.len() as int));
            lemma_dec_digits_injective(a[0] as int, b[0] as int);
            assert(a =~= b);
        } else if a.len() == 1 {
            lemma_dec_digits_len(a[0] as int);
            lemma_dec_digits_all_digits(a[0] as int);
            assert(cache_filename_spec(a)[0] == dec_digits(a[0] as int)[0]);
            assert(is_digit_char(cache_filename_spec(a)[0]));
            assert(cache_filename_spec(b)[0] == 'c');
            assert(false);
        } else if b.len() == 1 {
            lemma_dec_digits_len(b[0] as int);
            lemma_dec_digits_all_digits(b[0] as int);
            assert(cache_filename_spec(b)[0] == dec_digits(b[0] as int)[0]);
            assert(is_digit_char(cache_filename_spec(b)[0]));
            assert(cache_filename_spec(a)[0] == 'c');
            assert(false);
        } else {
            let ja = join_commas(a);
            let jb = join_commas(b);
            let ka = cache_filename_spec(a);
            assert("cache/"@.len() == 6);
            assert(".woff2"@.len() == 6);
            assert(ka.len() == 6 + ja.len() + 6);
            assert(cache_filename_spec(b).len() == 6 + jb.len() + 6);
            assert(ja.len() == jb.len());
            assert(ja =~= ka.subrange(6, 6 + ja.len() as int));
            assert(jb =~= ka.subrange(6, 6 + ja.len() as int));
            lemma_join_injective(a, b);
        }
        assert(false);
    }
}

/// Any two requests with the same multiset of code points derive the same
/// cache file name: the key depends only on the set of values requested,
/// never on the order in which they arrive.
pub proof fn lemma_cache_key_deterministic(a: Seq<u32>, b: Seq<u32>)
    requires
        a.to_multiset() == b.to_multiset(),
    ensures
        cache_filename_spec(sorted_codepoints(a)) == cache_filename_spec(sorted_codepoints(b)),
{
    lemma_cp_leq_total();
    a.lemma_sort_by_ensures(cp_leq());
    b.lemma_sort_by_ensures(cp_leq());
    lemma_sorted_unique(sorted_codepoints(a), sorted_codepoints(b), cp_leq());
}


// ---------------------------------------------------------------------------
// Content hashing
// ---------------------------------------------------------------------------

/// The md5 digest of a byte string: sixteen bytes, a function of the input
/// alone.
pub uninterp spec fn md5_of(data: Seq<u8>) -> Seq<u8>;

/// Relies on `md5::compute`: the md5 digest of the bytes, sixteen bytes long.
#[verifier::external_body]
fn md5_digest(data: &[u8]) -> (r: Vec<u8>)
    ensures
        r@ == md5_of(data@),
        r@.len() == 16,
{
    md5::compute(data).0.to_vec()
}

/// The lowercase hexadecimal digit for a value below sixteen.
pub open spec fn hex_digit_char(d: int) -> char
    recommends
        0 <= d < 16,
{
    if d < 10 {
        (d + 48) as char
    } else {
        (d + 87) as char
    }
}

/// Lowercase hexadecimal rendering of a byte string, two digits per byte.
pub open spec fn hex_chars(bs: Seq<u8>) -> Seq<char>
    decreases bs.len(),
{
    if bs.len() == 0 {
        Seq::empty()
    } else {
        hex_chars(bs.drop_last()) + seq![
            hex_digit_char(bs.last() as int / 16),
            hex_digit_char(bs.last() as int % 16),
        ]
    }
}

fn hex_digit_str(d: u8) -> (r: &'static str)
    requires
        d < 16,
    ensures
        r@ =~= seq![hex_digit_char(d as int)],
{
    proof {
        reveal_strlit("0");
        reveal_strlit("1");
        reveal_strlit("2");
        reveal_strlit("3");
        reveal_strlit("4");
        reveal_strlit("5");
        reveal_strlit("6");
        reveal_strlit("7");
        reveal_strlit("8");
        reveal_strlit("9");
        reveal_strlit("a");
        reveal_strlit("b");
        reveal_strlit("c");
        reveal_strlit("d");
        reveal_strlit("e");
        reveal_strlit("f");
    }
    match d {
        0 => "0",
        1 => "1",
        2 => "2",
        3 => "3",
        4 => "4",
        5 => "5",
        6 => "6",
        7 => "7",
        8 => "8",
        9 => "9",
        10 => "a",
        11 => "b",
        12 => "c",
        13 => "d",
        14 => "e",
        _ => "f",
    }
}

proof fn lemma_hex_chars_len(bs: Seq<u8>)
    ensures
        hex_chars(bs).len() == 2 * bs.len(),
    decreases bs.len(),
{
    if bs.len() > 0 {
        lemma_hex_chars_len(bs.drop_last());
    }
}

/// The md5 content hash of a byte string: the sixteen-byte digest rendered
/// as thirty-two lowercase hexadecimal characters.
pub fn generate_file_hash(data: &[u8]) -> (r: String)
    ensures
        r@ == hex_chars(md5_of(data@)),
        r@.len() == 32,
{
    let digest = md5_digest(data);
    let mut s = String::new();
    let mut i: usize = 0;
    proof {
        assert(digest@.subrange(0, 0) =~= Seq::<u8>::empty());
    }
    while i < digest.len()
        invariant
            i <= digest@.len(),
            s@ == hex_chars(digest@.subrange(0, i as int)),
        decreases digest@.len() - i,
    {
        let b = digest[i];
        s.append(hex_digit_str(b / 16));
        s.append(hex_digit_str(b % 16));
        proof {
            let pfx = digest@.subrange(0, i + 1);
            assert(pfx.drop_last() =~= digest@.subrange(0, i as int));
            assert(pfx.last() == digest@[i as int]);
            assert(s@ =~= hex_chars(pfx));
        }
        i = i + 1;
    }
    proof {
        assert(digest@.subrange(0, digest@.len() as int) =~= digest@);
        lemma_hex_chars_len(digest@);
    }
    s
}

} // verus!
