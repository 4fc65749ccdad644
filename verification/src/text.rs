//! Character-level text helpers shared by the parsers and identity rules.

use vstd::prelude::*;

verus! {

/// The characters of `s`, in order.
pub fn chars_of(s: &str) -> (v: Vec<char>)
    ensures
        v@ == s@,
{
    let mut v: Vec<char> = Vec::new();
    for c in it: s.chars()
        invariant
            v@ == it.seq().take(it.index() as int),
            it.seq() == s@,
    {
        v.push(c);
    }
    v
}


/// Whether two strings hold the same characters.
pub fn str_eq(a: &str, b: &str) -> (r: bool)
    ensures
        r == (a@ == b@),
{
    let x = a.to_owned();
    let y = b.to_owned();
    x == y
}

/// Unicode `White_Space`: the characters that `char::is_whitespace` accepts
/// and that `str::trim` removes.
pub open spec fn is_space(c: char) -> bool {
    let u = c as u32;
    (0x09 <= u <= 0x0D) || u == 0x20 || u == 0x85 || u == 0xA0 || u == 0x1680
        || (0x2000 <= u <= 0x200A) || u == 0x2028 || u == 0x2029 || u == 0x202F
        || u == 0x205F || u == 0x3000
}

pub fn is_space_char(c: char) -> (b: bool)
    ensures
        b == is_space(c),
{
    let u = c as u32;
    (0x09 <= u && u <= 0x0D) || u == 0x20 || u == 0x85 || u == 0xA0 || u == 0x1680
        || (0x2000 <= u && u <= 0x200A) || u == 0x2028 || u == 0x2029 || u == 0x202F
        || u == 0x205F || u == 0x3000
}

/// Number of leading whitespace characters of `s`.
pub open spec fn lead_spaces(s: Seq<char>) -> nat
    decreases s.len(),
{
    if s.len() > 0 && is_space(s[0]) {
        1 + lead_spaces(s.drop_first())
    } else {
        0
    }
}

/// Number of trailing whitespace characters of `s`.
pub open spec fn trail_spaces(s: Seq<char>) -> nat
    decreases s.len(),
{
    if s.len() > 0 && is_space(s.last()) {
        1 + trail_spaces(s.drop_last())
    } else {
        0
    }
}

/// `s` without leading and trailing whitespace (what `str::trim` returns).
pub open spec fn trimmed(s: Seq<char>) -> Seq<char> {
    let t = s.subrange(lead_spaces(s) as int, s.len() as int);
    t.subrange(0, t.len() - trail_spaces(t))
}

proof fn lemma_lead_spaces(s: Seq<char>, i: int)
    requires
        0 <= i <= s.len(),
        forall|j: int| 0 <= j < i ==> is_space(#[trigger] s[j]),
        i == s.len() || !is_space(s[i]),
    ensures
        lead_spaces(s) == i,
    decreases i,
{
    if i > 0 {
        let t = s.drop_first();
        assert forall|j: int| 0 <= j < i - 1 implies is_space(#[trigger] t[j]) by {
            assert(t[j] == s[j + 1]);
        }
        if i < s.len() {
            assert(t[i - 1] == s[i]);
        }
        lemma_lead_spaces(t, i - 1);
    }
}

proof fn lemma_trail_spaces(s: Seq<char>, i: int)
    requires
        0 <= i <= s.len(),
        forall|j: int| i <= j < s.len() ==> is_space(#[trigger] s[j]),
        i == 0 || !is_space(s[i - 1]),
    ensures
        trail_spaces(s) == s.len() - i,
    decreases s.len() - i,
{
    if i < s.len() {
        let t = s.drop_last();
        assert forall|j: int| i <= j < t.len() implies is_space(#[trigger] t[j]) by {
            assert(t[j] == s[j]);
        }
        if i > 0 {
            assert(t[i - 1] == s[i - 1]);
        }
        lemma_trail_spaces(t, i);
    }
}

/// The characters of `s` without leading and trailing whitespace.
pub fn trim_chars(s: &[char]) -> (r: Vec<char>)
    ensures
        r@ == trimmed(s@),
        r@.len() > 0 ==> !is_space(r@[0]),
{
    let n = s.len();
    let mut lo: usize = 0;
    while lo < n && is_space_char(s[lo])
        invariant
            n == s@.len(),
            lo <= n,
            forall|j: int| 0 <= j < lo ==> is_space(#[trigger] s@[j]),
        decreases n - lo,
    {
        lo += 1;
    }
    proof {
        lemma_lead_spaces(s@, lo as int);
    }
    let mut hi: usize = n;
    while hi > lo && is_space_char(s[hi - 1])
        invariant
            n == s@.len(),
            lo <= hi <= n,
            forall|j: int| hi <= j < n ==> is_space(#[trigger] s@[j]),
        decreases hi,
    {
        hi -= 1;
    }
    let ghost t = s@.subrange(lo as int, n as int);
    proof {
        assert forall|j: int| hi - lo <= j < t.len() implies is_space(#[trigger] t[j]) by {
            assert(t[j] == s@[j + lo]);
        }
        if hi > lo {
            assert(t[hi - lo - 1] == s@[hi - 1]);
        }
        lemma_trail_spaces(t, (hi - lo) as int);
    }
    let mut r: Vec<char> = Vec::new();
    let mut i = lo;
    while i < hi
        invariant
            n == s@.len(),
            lo <= i <= hi <= n,
            r@ == s@.subrange(lo as int, i as int),
        decreases hi - i,
    {
        r.push(s[i]);
        i += 1;
    }
    proof {
        assert(r@ =~= t.subrange(0, t.len() - trail_spaces(t)));
        if hi > lo {
            assert(r@[0] == s@[lo as int]);
        }
    }
    r
}

/// `p` is a prefix of `s`.
pub open spec fn has_prefix(s: Seq<char>, p: Seq<char>) -> bool {
    p.len() <= s.len() && s.subrange(0, p.len() as int) == p
}

/// `p` is a suffix of `s`.
pub open spec fn has_suffix(s: Seq<char>, p: Seq<char>) -> bool {
    p.len() <= s.len() && s.subrange(s.len() - p.len(), s.len() as int) == p
}

pub fn starts_with_chars(s: &[char], p: &[char]) -> (b: bool)
    ensures
        b == has_prefix(s@, p@),
{
    if p.len() > s.len() {
        return false;
    }
    let mut i: usize = 0;
    while i < p.len()
        invariant
            p@.len() <= s@.len(),
            i <= p@.len(),
            forall|j: int| 0 <= j < i ==> s@[j] == p@[j],
        decreases p@.len() - i,
    {
        if s[i] != p[i] {
            proof {
                assert(s@.subrange(0, p@.len() as int)[i as int] != p@[i as int]);
            }
            return false;
        }
        i += 1;
    }
    proof {
        assert(s@.subrange(0, p@.len() as int) =~= p@);
    }
    true
}

/// Whether `s` begins with the characters of `p`.
pub fn str_starts_with(s: &str, p: &str) -> (b: bool)
    ensures
        b == has_prefix(s@, p@),
{
    let a = chars_of(s);
    let b = chars_of(p);
    starts_with_chars(a.as_slice(), b.as_slice())
}

/// A `String` holding exactly the characters `v`.
#[verifier::external_body]
pub fn string_from_chars(v: &[char]) -> (s: String)
    ensures
        s@ == v@,
{
    v.iter().collect()
}

/// What `str::to_lowercase` returns: the Unicode lowercase form of the
/// string (a per-character mapping except for context-dependent cases such
/// as a final sigma).
pub uninterp spec fn lowercase(s: Seq<char>) -> Seq<char>;

/// The character is ASCII.
pub open spec fn is_ascii_char(c: char) -> bool {
    (c as u32) < 128
}

/// ASCII lowercasing of one character: `A`..`Z` become `a`..`z`, all else
/// stays.
pub open spec fn ascii_lower(c: char) -> char {
    if 'A' <= c && c <= 'Z' { ((c as u32) + 32) as char } else { c }
}

/// An ASCII letter or digit.
pub open spec fn ascii_alnum(c: char) -> bool {
    ('a' <= c && c <= 'z') || ('A' <= c && c <= 'Z') || ('0' <= c && c <= '9')
}

/// `str::to_lowercase`. Of an all-ASCII string its documentation gives the
/// ASCII lowercasing (`A`..`Z` to `a`..`z`, all else unchanged); of other
/// strings only that the result is the named lowercase form.
#[verifier::external_body]
pub fn to_lowercase(s: &str) -> (r: String)
    ensures
        r@ == lowercase(s@),
        (forall|i: int| 0 <= i < s@.len() ==> is_ascii_char(#[trigger] s@[i])) ==> r@ == s@.map_values(|c: char| ascii_lower(c)),
{
    s.to_lowercase()
}

/// What `char::is_alphanumeric` answers (Unicode `Alphabetic` or `Numeric`).
pub uninterp spec fn alphanumeric(c: char) -> bool;

/// `char::is_alphanumeric`: for an ASCII character, exactly the letters and
/// digits.
#[verifier::external_body]
pub fn is_alphanumeric(c: char) -> (b: bool)
    ensures
        b == alphanumeric(c),
        is_ascii_char(c) ==> (b == ascii_alnum(c)),
{
    c.is_alphanumeric()
}

/// `" ("` starts at position `i` of `s`.
pub open spec fn is_open_at(s: Seq<char>, i: int) -> bool {
    0 <= i && i + 1 < s.len() && s[i] == ' ' && s[i + 1] == '('
}

/// `i` is the last position where `" ("` starts.
pub open spec fn is_last_open(s: Seq<char>, i: int) -> bool {
    is_open_at(s, i) && forall|j: int| i < j ==> !#[trigger] is_open_at(s, j)
}

/// Where the last `" ("` of `s` starts (what `str::rfind(" (")` finds).
pub open spec fn last_open(s: Seq<char>) -> Option<int> {
    if exists|i: int| #[trigger] is_open_at(s, i) {
        Some(choose|i: int| is_last_open(s, i))
    } else {
        None
    }
}

proof fn lemma_last_open_exists(s: Seq<char>, i: int)
    requires
        is_open_at(s, i),
    ensures
        exists|k: int| is_last_open(s, k),
    decreases s.len() - i,
{
    if exists|j: int| i < j && #[trigger] is_open_at(s, j) {
        let j = choose|j: int| i < j && #[trigger] is_open_at(s, j);
        lemma_last_open_exists(s, j);
    } else {
        assert(is_last_open(s, i));
    }
}

/// What `last_open` gives: the last position of `" ("`, if any.
pub proof fn lemma_last_open(s: Seq<char>)
    ensures
        match last_open(s) {
            Some(i) => is_last_open(s, i),
            None => forall|j: int| !#[trigger] is_open_at(s, j),
        },
{
    if exists|i: int| #[trigger] is_open_at(s, i) {
        let i = choose|i: int| #[trigger] is_open_at(s, i);
        lemma_last_open_exists(s, i);
    }
}

/// The position of the last `" ("` in `s`.
pub fn rfind_open(s: &[char]) -> (r: Option<usize>)
    ensures
        r == (match last_open(s@) {
            Some(i) => Some(i as usize),
            None => None,
        }),
{
    let n = s.len();
    if n < 2 {
        return None;
    }
    let mut i: usize = n - 1;
    while i > 0
        invariant
            n == s@.len(),
            n >= 2,
            i <= n - 1,
            forall|j: int| i <= j ==> !#[trigger] is_open_at(s@, j),
        decreases i,
    {
        if s[i - 1] == ' ' && s[i] == '(' {
            proof {
                let k = (i - 1) as int;
                assert(is_open_at(s@, k));
                assert(is_last_open(s@, k));
                let m = choose|m: int| is_last_open(s@, m);
                lemma_last_open_exists(s@, k);
                if m < k {
                    assert(!is_open_at(s@, k));
                } else if m > k {
                    assert(!is_open_at(s@, m));
                }
            }
            return Some(i - 1);
        }
        i -= 1;
    }
    None
}

/// `s` ends with a `" (token)"` that wlroots appends naming the connector.
pub open spec fn connector_suffix_at(s: Seq<char>) -> Option<int> {
    match last_open(s) {
        Some(o) => if s.len() > 0 && s.last() == ')' { Some(o) } else { None },
        None => None,
    }
}

/// `s` without its trailing `" (connector)"` suffix, if it has one.
pub open spec fn strip_connector(s: Seq<char>) -> Seq<char> {
    match connector_suffix_at(s) {
        Some(o) => s.subrange(0, o),
        None => s,
    }
}

/// The characters of `s` from `lo` up to (not including) `hi`.
pub fn slice_chars(s: &[char], lo: usize, hi: usize) -> (r: Vec<char>)
    requires
        lo <= hi <= s@.len(),
    ensures
        r@ == s@.subrange(lo as int, hi as int),
{
    let mut r: Vec<char> = Vec::new();
    let mut i = lo;
    while i < hi
        invariant
            lo <= i <= hi <= s@.len(),
            r@ == s@.subrange(lo as int, i as int),
        decreases hi - i,
    {
        r.push(s[i]);
        i += 1;
    }
    r
}

/// The characters of `a` followed by those of `b`.
pub fn concat_chars(a: &[char], b: &[char]) -> (r: Vec<char>)
    ensures
        r@ == a@ + b@,
{
    let mut r: Vec<char> = Vec::new();
    let mut i: usize = 0;
    while i < a.len()
        invariant
            i <= a@.len(),
            r@ == a@.subrange(0, i as int),
        decreases a@.len() - i,
    {
        r.push(a[i]);
        i += 1;
    }
    let mut j: usize = 0;
    while j < b.len()
        invariant
            j <= b@.len(),
            r@ == a@ + b@.subrange(0, j as int),
        decreases b@.len() - j,
    {
        r.push(b[j]);
        j += 1;
    }
    proof {
        assert(a@.subrange(0, a@.len() as int) =~= a@);
        assert(b@.subrange(0, b@.len() as int) =~= b@);
    }
    r
}

/// The decimal digit character for `d` (0..=9).
pub open spec fn digit_char(d: nat) -> char {
    (d + 48) as char
}

/// The decimal digits of `n`, without leading zeros ("0" for zero).
pub open spec fn digits(n: nat) -> Seq<char>
    decreases n,
{
    if n < 10 {
        seq![digit_char(n)]
    } else {
        digits(n / 10).push(digit_char(n % 10))
    }
}

/// How `Display` writes an integer: an optional minus sign, then digits.
pub open spec fn decimal(n: int) -> Seq<char> {
    if n < 0 {
        seq!['-'] + digits((-n) as nat)
    } else {
        digits(n as nat)
    }
}

fn digits_of(n: u64) -> (v: Vec<char>)
    ensures
        v@ == digits(n as nat),
    decreases n,
{
    let d = (n % 10) as u8;
    let c = (48u8 + d) as char;
    if n < 10 {
        let mut v: Vec<char> = Vec::new();
        v.push(c);
        v
    } else {
        let mut v = digits_of(n / 10);
        v.push(c);
        v
    }
}

/// The decimal text of `n`.
pub fn decimal_chars(n: i64) -> (v: Vec<char>)
    ensures
        v@ == decimal(n as int),
{
    if n < 0 {
        let m: u64 = if n == i64::MIN { 0x8000_0000_0000_0000u64 } else { (-n) as u64 };
        let mut v: Vec<char> = Vec::new();
        v.push('-');
        let d = digits_of(m);
        concat_chars(v.as_slice(), d.as_slice())
    } else {
        digits_of(n as u64)
    }
}

/// The decimal text of an unsigned `n`.
pub fn decimal_chars_u64(n: u64) -> (v: Vec<char>)
    ensures
        v@ == decimal(n as int),
{
    digits_of(n)
}
/// The views of a vector of character vectors.
pub open spec fn char_vecs(v: Seq<Vec<char>>) -> Seq<Seq<char>> {
    v.map_values(|x: Vec<char>| x@)
}

/// The whitespace-separated words of `s`, as `str::split_whitespace`
/// gives them: the words found so far and the word being read.
pub open spec fn word_scan(s: Seq<char>) -> (Seq<Seq<char>>, Seq<char>)
    decreases s.len(),
{
    if s.len() == 0 {
        (Seq::empty(), Seq::empty())
    } else {
        let (done, cur) = word_scan(s.drop_last());
        let c = s.last();
        if is_space(c) {
            if cur.len() > 0 { (done.push(cur), Seq::empty()) } else { (done, Seq::empty()) }
        } else {
            (done, cur.push(c))
        }
    }
}

/// The whitespace-separated words of `s`.
pub open spec fn words(s: Seq<char>) -> Seq<Seq<char>> {
    let (done, cur) = word_scan(s);
    if cur.len() > 0 { done.push(cur) } else { done }
}

/// The words of `s`.
pub fn split_words(s: &[char]) -> (v: Vec<Vec<char>>)
    ensures
        char_vecs(v@) == words(s@),
{
    let mut v: Vec<Vec<char>> = Vec::new();
    let mut cur: Vec<char> = Vec::new();
    let mut i: usize = 0;
    proof {
        assert(s@.take(0) =~= Seq::<char>::empty());
        assert(char_vecs(v@) =~= Seq::<Seq<char>>::empty());
    }
    while i < s.len()
        invariant
            i <= s@.len(),
            word_scan(s@.take(i as int)) == (char_vecs(v@), cur@),
        decreases s@.len() - i,
    {
        let c = s[i];
        proof {
            assert(s@.take(i + 1).drop_last() =~= s@.take(i as int));
            assert(s@.take(i + 1).last() == c);
        }
        if is_space_char(c) {
            if cur.len() > 0 {
                let ghost before = v@;
                let ghost w = cur@;
                v.push(cur);
                cur = Vec::new();
                proof {
                    assert(char_vecs(v@) =~= char_vecs(before).push(w));
                    assert(cur@ =~= Seq::<char>::empty());
                }
            } else {
                proof {
                    assert(cur@ =~= Seq::<char>::empty());
                }
            }
        } else {
            cur.push(c);
        }
        i += 1;
    }
    proof {
        assert(s@.take(s@.len() as int) =~= s@);
    }
    if cur.len() > 0 {
        let ghost before = v@;
        let ghost w = cur@;
        v.push(cur);
        proof {
            assert(char_vecs(v@) =~= char_vecs(before).push(w));
        }
    }
    v
}

/// The lines `t` joined with single spaces.
pub open spec fn join_spaced(t: Seq<Seq<char>>) -> Seq<char>
    decreases t.len(),
{
    if t.len() == 0 {
        Seq::empty()
    } else if t.len() == 1 {
        t[0]
    } else {
        join_spaced(t.drop_last()) + seq![' '] + t.last()
    }
}

/// The words `v[lo..]` joined with single spaces.
pub fn join_words_from(v: &Vec<Vec<char>>, lo: usize) -> (r: Vec<char>)
    requires
        lo <= v@.len(),
    ensures
        r@ == join_spaced(char_vecs(v@).skip(lo as int)),
{
    let mut out: Vec<char> = Vec::new();
    let mut i: usize = lo;
    proof {
        assert(char_vecs(v@).skip(lo as int).take(0) =~= Seq::<Seq<char>>::empty());
    }
    while i < v.len()
        invariant
            lo <= i <= v@.len(),
            out@ == join_spaced(char_vecs(v@).skip(lo as int).take(i - lo)),
        decreases v@.len() - i,
    {
        let ghost t = char_vecs(v@).skip(lo as int);
        proof {
            let nxt = t.take(i - lo + 1);
            assert(nxt.drop_last() =~= t.take(i - lo));
            assert(nxt.last() == v@[i as int]@);
        }
        if i > lo {
            out.push(' ');
        }
        out = concat_chars(out.as_slice(), v[i].as_slice());
        proof {
            let nxt = t.take(i - lo + 1);
            if i == lo {
                assert(out@ =~= nxt[0]);
            } else {
                assert(out@ =~= join_spaced(t.take(i - lo)) + seq![' '] + nxt.last());
            }
        }
        i += 1;
    }
    proof {
        assert(char_vecs(v@).skip(lo as int).take(v@.len() - lo) =~= char_vecs(v@).skip(lo as int));
    }
    out
}

/// A string with a character that is not whitespace has a word.
pub proof fn lemma_words_nonempty(s: Seq<char>, k: int)
    requires
        0 <= k < s.len(),
        !is_space(s[k]),
    ensures
        words(s).len() > 0,
{
    lemma_scan_nonempty(s, k);
}

proof fn lemma_scan_nonempty(s: Seq<char>, k: int)
    requires
        0 <= k < s.len(),
        !is_space(s[k]),
    ensures
        word_scan(s).0.len() + word_scan(s).1.len() > 0,
    decreases s.len(),
{
    let d = s.drop_last();
    if k < s.len() - 1 {
        assert(d[k] == s[k]);
        lemma_scan_nonempty(d, k);
    }
}

/// Append the characters of `s`.
pub fn push_str(out: &mut Vec<char>, s: &str)
    ensures
        final(out)@ == old(out)@ + s@,
{
    let ghost start = out@;
    for c in it: s.chars()
        invariant
            out@ == start + it.seq().take(it.index() as int),
            it.seq() == s@,
    {
        out.push(c);
        proof {
            assert(start + it.seq().take(it.index() + 1) =~= (start + it.seq().take(it.index() as int)).push(c));
        }
    }
    proof {
        assert(s@.take(s@.len() as int) =~= s@);
    }
}

/// Append the characters of `s`.
pub fn push_chars(out: &mut Vec<char>, s: &[char])
    ensures
        final(out)@ == old(out)@ + s@,
{
    let ghost start = out@;
    let mut i: usize = 0;
    while i < s.len()
        invariant
            i <= s@.len(),
            out@ == start + s@.take(i as int),
        decreases s@.len() - i,
    {
        out.push(s[i]);
        proof {
            assert(start + s@.take(i + 1) =~= (start + s@.take(i as int)).push(s@[i as int]));
        }
        i += 1;
    }
    proof {
        assert(s@.take(s@.len() as int) =~= s@);
    }
}

/// `s` with every double quote written as `&quot;`.
pub open spec fn escape_quotes(s: Seq<char>) -> Seq<char>
    decreases s.len(),
{
    if s.len() == 0 {
        Seq::empty()
    } else {
        escape_quotes(s.drop_last()) + if s.last() == '"' { "&quot;"@ } else { seq![s.last()] }
    }
}

/// Write every double quote of `s` as `&quot;`.
pub fn escape_quotes_chars(s: &[char]) -> (r: Vec<char>)
    ensures
        r@ == escape_quotes(s@),
{
    let mut out: Vec<char> = Vec::new();
    let mut i: usize = 0;
    while i < s.len()
        invariant
            i <= s@.len(),
            out@ == escape_quotes(s@.take(i as int)),
        decreases s@.len() - i,
    {
        proof {
            assert(s@.take(i + 1).drop_last() =~= s@.take(i as int));
            assert(s@.take(i + 1).last() == s@[i as int]);
        }
        if s[i] == '"' {
            push_str(&mut out, "&quot;");
        } else {
            out.push(s[i]);
            proof {
                assert(out@ =~= escape_quotes(s@.take(i as int)) + seq![s@[i as int]]);
            }
        }
        i += 1;
    }
    proof {
        assert(s@.take(s@.len() as int) =~= s@);
    }
    out
}

/// The pieces joined with `sep` between them.
pub open spec fn join_sep(t: Seq<Seq<char>>, sep: Seq<char>) -> Seq<char>
    decreases t.len(),
{
    if t.len() == 0 {
        Seq::empty()
    } else if t.len() == 1 {
        t[0]
    } else {
        join_sep(t.drop_last(), sep) + sep + t.last()
    }
}

/// Join the pieces with `sep` between them.
pub fn join_with(v: &Vec<Vec<char>>, sep: &str) -> (r: Vec<char>)
    ensures
        r@ == join_sep(char_vecs(v@), sep@),
{
    let ghost t = char_vecs(v@);
    let mut out: Vec<char> = Vec::new();
    let mut i: usize = 0;
    while i < v.len()
        invariant
            i <= v@.len(),
            t == char_vecs(v@),
            out@ == join_sep(t.take(i as int), sep@),
        decreases v@.len() - i,
    {
        let ghost before = out@;
        if i > 0 {
            push_str(&mut out, sep);
        }
        push_chars(&mut out, v[i].as_slice());
        proof {
            let nxt = t.take(i + 1);
            assert(nxt.drop_last() =~= t.take(i as int));
            assert(nxt.last() == v@[i as int]@);
            if i == 0 {
                assert(out@ =~= nxt[0]);
            }
        }
        i += 1;
    }
    proof {
        assert(t.take(t.len() as int) =~= t);
    }
    out
}

} // verus!
