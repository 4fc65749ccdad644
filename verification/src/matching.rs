//! Matching a workspace's output specifiers ("center", "portrait", "laptop",
//! "X,Y" positions, connector names) against the connected outputs.

use vstd::prelude::*;
use crate::seqs::{first_match, is_first, lemma_first_match, lemma_first_match_unique};
use crate::numbers::{is_digit, parse_i32, parse_i32_chars};
use crate::text::{chars_of, has_prefix, slice_chars, str_eq, str_starts_with};
use crate::workspace::{is_ready, any_ready, Output, OutputId};

verus! {

// ── Output specifiers ───────────────────────────────────────────────────

/// The spec names a position: it holds a comma and nothing but digits,
/// commas and minus signs.
pub open spec fn position_like(s: Seq<char>) -> bool {
    &&& exists|i: int| 0 <= i < s.len() && s[i] == ','
    &&& forall|i: int| 0 <= i < s.len() ==> (is_digit(#[trigger] s[i]) || s[i] == ',' || s[i] == '-')
}

/// The position `s` names, when it holds exactly one comma and both sides
/// parse as `i32`.
pub open spec fn parse_position(s: Seq<char>) -> Option<(i32, i32)> {
    if exists|c: int| 0 <= c < s.len() && s[c] == ',' && (forall|j: int| 0 <= j < s.len() && j != c ==> s[j] != ',') {
        let c = choose|c: int| 0 <= c < s.len() && s[c] == ',' && (forall|j: int| 0 <= j < s.len() && j != c ==> s[j] != ',');
        match (parse_i32(s.take(c)), parse_i32(s.skip(c + 1))) {
            (Some(x), Some(y)) => Some((x, y)),
            _ => None,
        }
    } else {
        None
    }
}

pub open spec fn ready_with(p: spec_fn(Output) -> bool) -> spec_fn(Output) -> bool {
    |o: Output| is_ready(o) && p(o)
}

/// The id of the first ready output that satisfies `p`.
pub open spec fn first_ready(outs: Seq<Output>, p: spec_fn(Output) -> bool) -> Option<OutputId> {
    match first_match(outs, ready_with(p)) {
        Some(k) => Some(outs[k].id),
        None => None,
    }
}

/// The bounding box (min x, max x, min y, max y) of the ready outputs.
pub open spec fn ready_bounds(s: Seq<Output>) -> Option<(int, int, int, int)>
    decreases s.len(),
{
    if s.len() == 0 {
        None
    } else {
        let o = s.last();
        let rest = ready_bounds(s.drop_last());
        if !is_ready(o) {
            rest
        } else {
            let b = (o.x as int, o.x + o.width, o.y as int, o.y + o.height);
            match rest {
                None => Some(b),
                Some(r) => Some((
                    if r.0 <= b.0 { r.0 } else { b.0 },
                    if r.1 >= b.1 { r.1 } else { b.1 },
                    if r.2 <= b.2 { r.2 } else { b.2 },
                    if r.3 >= b.3 { r.3 } else { b.3 },
                )),
            }
        }
    }
}

/// Integer halving as `i32` division does it (toward zero).
pub open spec fn half(a: int) -> int {
    if a >= 0 { a / 2 } else { -((-a) / 2) }
}

pub open spec fn abs(a: int) -> int {
    if a >= 0 { a } else { -a }
}

/// How far an output is from the center `(cx, cy)`: horizontal distance
/// first, then vertical, and the larger area wins what is left.
pub open spec fn center_key(o: Output, cx: int, cy: int) -> (int, int, int) {
    (abs(o.x + o.width / 2 - cx), abs(o.y + o.height / 2 - cy), -(o.width * o.height))
}

pub open spec fn key_le(a: (int, int, int), b: (int, int, int)) -> bool {
    a.0 < b.0 || (a.0 == b.0 && (a.1 < b.1 || (a.1 == b.1 && a.2 <= b.2)))
}

/// The center of the ready outputs' bounding box.
pub open spec fn setup_center(outs: Seq<Output>) -> (int, int) {
    let b = ready_bounds(outs).unwrap();
    (half(b.0 + b.1), half(b.2 + b.3))
}

/// `o` is ready and no ready output is nearer the center than it.
pub open spec fn is_most_central(outs: Seq<Output>) -> spec_fn(Output) -> bool {
    |o: Output| {
        let c = setup_center(outs);
        forall|j: int| 0 <= j < outs.len() && is_ready(#[trigger] outs[j])
            ==> key_le(center_key(o, c.0, c.1), center_key(outs[j], c.0, c.1))
    }
}

pub open spec fn is_portrait() -> spec_fn(Output) -> bool {
    |o: Output| o.height > o.width
}

pub open spec fn is_laptop() -> spec_fn(Output) -> bool {
    |o: Output| o.name matches Some(n) && has_prefix(n@, "eDP"@)
}

pub open spec fn is_at(x: i32, y: i32) -> spec_fn(Output) -> bool {
    |o: Output| o.x == x && o.y == y
}

pub open spec fn is_named(name: Seq<char>) -> spec_fn(Output) -> bool {
    |o: Output| o.name matches Some(n) && n@ == name
}

/// The output that the specifier `spec` picks among `outs`.
pub open spec fn matching_output(spec: Seq<char>, outs: Seq<Output>) -> Option<OutputId> {
    if !any_ready(outs) {
        None
    } else if spec == "center"@ {
        first_ready(outs, is_most_central(outs))
    } else if spec == "portrait"@ {
        first_ready(outs, is_portrait())
    } else if spec == "laptop"@ {
        first_ready(outs, is_laptop())
    } else if position_like(spec) {
        match parse_position(spec) {
            Some((x, y)) => first_ready(outs, is_at(x, y)),
            None => None,
        }
    } else {
        first_ready(outs, is_named(spec))
    }
}

pub open spec fn spec_matches(outs: Seq<Output>) -> spec_fn(String) -> bool {
    |s: String| matching_output(s@, outs) is Some
}

/// The first specifier of `specs` that matches an output, with its rank
/// (position in `specs`) and the output it matches.
pub open spec fn preferred_ranked(specs: Seq<String>, outs: Seq<Output>) -> Option<(int, OutputId)> {
    match first_match(specs, spec_matches(outs)) {
        Some(r) => Some((r, matching_output(specs[r]@, outs).unwrap())),
        None => None,
    }
}

/// The output that the first matching specifier of `specs` picks.
pub open spec fn preferred_output(specs: Seq<String>, outs: Seq<Output>) -> Option<OutputId> {
    match preferred_ranked(specs, outs) {
        Some((_, id)) => Some(id),
        None => None,
    }
}

// ── Executable matching ─────────────────────────────────────────────────

fn ready(o: &Output) -> (b: bool)
    ensures
        b == is_ready(*o),
{
    !o.removed && o.width > 0 && o.height > 0
}

/// A test on an output that picks it for a specifier.
enum OutputTest<'a> {
    Portrait,
    Laptop,
    At(i32, i32),
    Named(&'a str),
}

spec fn test_pred(t: OutputTest) -> spec_fn(Output) -> bool {
    match t {
        OutputTest::Portrait => is_portrait(),
        OutputTest::Laptop => is_laptop(),
        OutputTest::At(x, y) => is_at(x, y),
        OutputTest::Named(n) => is_named(n@),
    }
}

fn passes(o: &Output, t: &OutputTest) -> (b: bool)
    ensures
        b == (test_pred(*t))(*o),
{
    match t {
        OutputTest::Portrait => o.height > o.width,
        OutputTest::Laptop => match &o.name {
            Some(n) => str_starts_with(n.as_str(), "eDP"),
            None => false,
        },
        OutputTest::At(x, y) => o.x == *x && o.y == *y,
        OutputTest::Named(name) => match &o.name {
            Some(n) => str_eq(n.as_str(), name),
            None => false,
        },
    }
}

/// The id of the first ready output that passes `t`.
fn first_ready_where(outputs: &[Output], t: OutputTest) -> (r: Option<OutputId>)
    ensures
        r == first_ready(outputs@, test_pred(t)),
{
    let ghost q = ready_with(test_pred(t));
    let mut i: usize = 0;
    while i < outputs.len()
        invariant
            i <= outputs@.len(),
            q == ready_with(test_pred(t)),
            forall|j: int| 0 <= j < i ==> !q(#[trigger] outputs@[j]),
        decreases outputs@.len() - i,
    {
        let o = &outputs[i];
        if ready(o) && passes(o, &t) {
            proof {
                assert(is_first(outputs@, q, i as int));
                lemma_first_match_unique(outputs@, q, i as int);
            }
            return Some(o.id);
        }
        i += 1;
    }
    proof {
        lemma_first_match(outputs@, q);
    }
    None
}

fn any_ready_output(outputs: &[Output]) -> (b: bool)
    ensures
        b == any_ready(outputs@),
{
    let mut i: usize = 0;
    while i < outputs.len()
        invariant
            i <= outputs@.len(),
            forall|j: int| 0 <= j < i ==> !is_ready(#[trigger] outputs@[j]),
        decreases outputs@.len() - i,
    {
        if ready(&outputs[i]) {
            return true;
        }
        i += 1;
    }
    false
}

/// The bounding box of the ready outputs, as `ready_bounds` defines it.
fn bounds_of(outputs: &[Output]) -> (r: Option<(i64, i64, i64, i64)>)
    ensures
        match r {
            Some(b) => ready_bounds(outputs@) == Some((b.0 as int, b.1 as int, b.2 as int, b.3 as int)),
            None => ready_bounds(outputs@) is None,
        },
        r is Some ==> {
            let b = r.unwrap();
            &&& i32::MIN <= b.0 <= 2 * i32::MAX as int
            &&& i32::MIN <= b.1 <= 2 * i32::MAX as int
            &&& i32::MIN <= b.2 <= 2 * i32::MAX as int
            &&& i32::MIN <= b.3 <= 2 * i32::MAX as int
        },
{
    let mut acc: Option<(i64, i64, i64, i64)> = None;
    let mut i: usize = 0;
    while i < outputs.len()
        invariant
            i <= outputs@.len(),
            match acc {
                Some(b) => ready_bounds(outputs@.take(i as int)) == Some((b.0 as int, b.1 as int, b.2 as int, b.3 as int)),
                None => ready_bounds(outputs@.take(i as int)) is None,
            },
            acc is Some ==> {
                let b = acc.unwrap();
                &&& i32::MIN <= b.0 <= 2 * i32::MAX as int
                &&& i32::MIN <= b.1 <= 2 * i32::MAX as int
                &&& i32::MIN <= b.2 <= 2 * i32::MAX as int
                &&& i32::MIN <= b.3 <= 2 * i32::MAX as int
            },
        decreases outputs@.len() - i,
    {
        let o = &outputs[i];
        proof {
            assert(outputs@.take(i + 1).drop_last() =~= outputs@.take(i as int));
            assert(outputs@.take(i + 1).last() == *o);
        }
        if ready(o) {
            let b = (o.x as i64, o.x as i64 + o.width as i64, o.y as i64, o.y as i64 + o.height as i64);
            acc = match acc {
                None => Some(b),
                Some(r) => Some((
                    if r.0 <= b.0 { r.0 } else { b.0 },
                    if r.1 >= b.1 { r.1 } else { b.1 },
                    if r.2 <= b.2 { r.2 } else { b.2 },
                    if r.3 >= b.3 { r.3 } else { b.3 },
                )),
            };
        }
        i += 1;
    }
    proof {
        assert(outputs@.take(outputs@.len() as int) =~= outputs@);
    }
    acc
}

fn half_i64(a: i64) -> (h: i64)
    ensures
        h == half(a as int),
{
    a / 2
}

fn abs_i64(a: i64) -> (r: i64)
    requires
        a > i64::MIN,
    ensures
        r == abs(a as int),
{
    if a >= 0 { a } else { -a }
}

fn center_key_of(o: &Output, cx: i64, cy: i64) -> (k: (i64, i64, i64))
    requires
        is_ready(*o),
        i32::MIN <= cx <= 2 * i32::MAX as int,
        i32::MIN <= cy <= 2 * i32::MAX as int,
    ensures
        (k.0 as int, k.1 as int, k.2 as int) == center_key(*o, cx as int, cy as int),
{
    let ox = o.x as i64 + (o.width / 2) as i64;
    let oy = o.y as i64 + (o.height / 2) as i64;
    let w = o.width as i64;
    let h = o.height as i64;
    assert(-0x4000_0000_0000_0000 <= w * h <= 0x4000_0000_0000_0000) by (nonlinear_arith)
        requires
            -0x8000_0000 <= w <= 0x7fff_ffff,
            -0x8000_0000 <= h <= 0x7fff_ffff,
    ;
    (abs_i64(ox - cx), abs_i64(oy - cy), -(w * h))
}

fn key_le_exec(a: (i64, i64, i64), b: (i64, i64, i64)) -> (r: bool)
    ensures
        r == key_le((a.0 as int, a.1 as int, a.2 as int), (b.0 as int, b.1 as int, b.2 as int)),
{
    a.0 < b.0 || (a.0 == b.0 && (a.1 < b.1 || (a.1 == b.1 && a.2 <= b.2)))
}

/// The ready output nearest the horizontal middle of the setup.
fn center_output(outputs: &[Output]) -> (r: Option<OutputId>)
    requires
        any_ready(outputs@),
    ensures
        r == first_ready(outputs@, is_most_central(outputs@)),
{
    proof {
        lemma_ready_bounds_some(outputs@);
    }
    let b = bounds_of(outputs).unwrap();
    let cx = half_i64(b.0 + b.1);
    let cy = half_i64(b.2 + b.3);
    let ghost c = setup_center(outputs@);
    let ghost ks = Seq::new(outputs@.len(), |j: int| center_key(outputs@[j], c.0, c.1));
    assert(c == (cx as int, cy as int));
    let mut best: Option<usize> = None;
    let mut best_key: (i64, i64, i64) = (0, 0, 0);
    let mut i: usize = 0;
    while i < outputs.len()
        invariant
            i <= outputs@.len(),
            c == (cx as int, cy as int),
            i32::MIN <= cx <= 2 * i32::MAX as int,
            i32::MIN <= cy <= 2 * i32::MAX as int,
            ks == Seq::new(outputs@.len(), |j: int| center_key(outputs@[j], c.0, c.1)),
            match best {
                Some(k) => {
                    &&& k < i
                    &&& is_ready(outputs@[k as int])
                    &&& (best_key.0 as int, best_key.1 as int, best_key.2 as int) == ks[k as int]
                    &&& forall|j: int| 0 <= j < i && is_ready(#[trigger] outputs@[j]) ==> key_le(ks[k as int], ks[j])
                    &&& forall|j: int| 0 <= j < k && is_ready(#[trigger] outputs@[j]) ==> !key_le(ks[j], ks[k as int])
                },
                None => forall|j: int| 0 <= j < i ==> !is_ready(#[trigger] outputs@[j]),
            },
        decreases outputs@.len() - i,
    {
        let o = &outputs[i];
        if ready(o) {
            let k = center_key_of(o, cx, cy);
            let better = match best {
                None => true,
                Some(_) => !key_le_exec(best_key, k),
            };
            if better {
                best = Some(i);
                best_key = k;
            }
        }
        i += 1;
    }
    let ghost p = ready_with(is_most_central(outputs@));
    match best {
        Some(k) => {
            proof {
                assert forall|j: int| 0 <= j < outputs@.len() && is_ready(#[trigger] outputs@[j])
                    implies key_le(center_key(outputs@[k as int], c.0, c.1), center_key(outputs@[j], c.0, c.1)) by {
                    assert(ks[j] == center_key(outputs@[j], c.0, c.1));
                }
                assert(p(outputs@[k as int]));
                assert forall|j: int| 0 <= j < k implies !p(#[trigger] outputs@[j]) by {
                    if is_ready(outputs@[j]) {
                        assert(ks[j] == center_key(outputs@[j], c.0, c.1));
                        assert(!key_le(ks[j], ks[k as int]));
                    }
                }
                assert(is_first(outputs@, p, k as int));
                lemma_first_match_unique(outputs@, p, k as int);
            }
            Some(outputs[k].id)
        },
        None => {
            proof {
                let j = choose|j: int| 0 <= j < outputs@.len() && is_ready(#[trigger] outputs@[j]);
                assert(!is_ready(outputs@[j]));
            }
            None
        },
    }
}

proof fn lemma_ready_bounds_some(s: Seq<Output>)
    requires
        any_ready(s),
    ensures
        ready_bounds(s) is Some,
    decreases s.len(),
{
    if !is_ready(s.last()) {
        let j = choose|j: int| 0 <= j < s.len() && is_ready(#[trigger] s[j]);
        assert(j < s.len() - 1);
        assert(s.drop_last()[j] == s[j]);
        lemma_ready_bounds_some(s.drop_last());
    }
}

/// The output picked by one specifier.
///
/// Supported specifiers: `"center"` (the monitor whose horizontal center is
/// nearest the middle of the setup), `"portrait"` (first monitor taller
/// than wide), `"laptop"` (first monitor on an `eDP` connector), `"X,Y"`
/// (the monitor at that logical position) and, for anything else, a
/// connector name. Only outputs that are connected and have known
/// dimensions count.
pub fn find_matching_output(specifier: &str, outputs: &[Output]) -> (r: Option<OutputId>)
    ensures
        r == matching_output(specifier@, outputs@),
{
    if !any_ready_output(outputs) {
        return None;
    }
    if str_eq(specifier, "center") {
        center_output(outputs)
    } else if str_eq(specifier, "portrait") {
        first_ready_where(outputs, OutputTest::Portrait)
    } else if str_eq(specifier, "laptop") {
        first_ready_where(outputs, OutputTest::Laptop)
    } else {
        let cs = chars_of(specifier);
        if is_position_like(cs.as_slice()) {
            match position_of(cs.as_slice()) {
                Some((x, y)) => first_ready_where(outputs, OutputTest::At(x, y)),
                None => None,
            }
        } else {
            first_ready_where(outputs, OutputTest::Named(specifier))
        }
    }
}

fn is_position_like(s: &[char]) -> (b: bool)
    ensures
        b == position_like(s@),
{
    let mut comma = false;
    let mut i: usize = 0;
    while i < s.len()
        invariant
            i <= s@.len(),
            comma == (exists|j: int| 0 <= j < i && s@[j] == ','),
            forall|j: int| 0 <= j < i ==> (is_digit(#[trigger] s@[j]) || s@[j] == ',' || s@[j] == '-'),
        decreases s@.len() - i,
    {
        let c = s[i];
        if !(('0' <= c && c <= '9') || c == ',' || c == '-') {
            return false;
        }
        if c == ',' {
            comma = true;
        }
        i += 1;
    }
    comma
}

/// The position "X,Y" names: exactly one comma with an `i32` on each side.
#[verifier::rlimit(40)]
fn position_of(s: &[char]) -> (r: Option<(i32, i32)>)
    ensures
        r == parse_position(s@),
{
    let mut count: usize = 0;
    let mut at: usize = 0;
    let mut i: usize = 0;
    while i < s.len()
        invariant
            i <= s@.len(),
            count <= i,
            count == 0 ==> forall|j: int| 0 <= j < i ==> s@[j] != ',',
            count >= 1 ==> at < i && s@[at as int] == ',',
            count == 1 ==> forall|j: int| 0 <= j < i && j != at ==> s@[j] != ',',
            count >= 2 ==> exists|j: int| 0 <= j < i && j != at && s@[j] == ',',
        decreases s@.len() - i,
    {
        if s[i] == ',' {
            if count == 0 {
                at = i;
            }
            count += 1;
        }
        i += 1;
    }
    let ghost ex = exists|c: int| 0 <= c < s@.len() && s@[c] == ',' && (forall|j: int| 0 <= j < s@.len() && j != c ==> s@[j] != ',');
    if count != 1 {
        proof {
            if ex {
                let c = choose|c: int| 0 <= c < s@.len() && s@[c] == ',' && (forall|j: int| 0 <= j < s@.len() && j != c ==> s@[j] != ',');
                if count >= 2 {
                    let j = choose|j: int| 0 <= j < s@.len() && j != at && s@[j] == ',';
                    assert(j == c);
                    assert(at == c);
                } else {
                    assert(s@[c] != ',');
                }
            }
        }
        return None;
    }
    proof {
        assert(ex);
        let c = choose|c: int| 0 <= c < s@.len() && s@[c] == ',' && (forall|j: int| 0 <= j < s@.len() && j != c ==> s@[j] != ',');
        assert(c == at);
    }
    let left = slice_chars(s, 0, at);
    let right = slice_chars(s, at + 1, s.len());
    proof {
        assert(left@ =~= s@.take(at as int));
        assert(right@ =~= s@.skip(at + 1));
    }
    match (parse_i32_chars(left.as_slice()), parse_i32_chars(right.as_slice())) {
        (Some(x), Some(y)) => Some((x, y)),
        _ => None,
    }
}

/// Like `find_preferred_output`, but also gives the position in
/// `specifiers` where the match occurred (lower is a stronger preference).
pub fn find_preferred_output_ranked(specifiers: &[String], outputs: &[Output]) -> (r: Option<(usize, OutputId)>)
    ensures
        match r {
            Some((rank, id)) => preferred_ranked(specifiers@, outputs@) == Some((rank as int, id)),
            None => preferred_ranked(specifiers@, outputs@) is None,
        },
{
    let ghost p = spec_matches(outputs@);
    let mut rank: usize = 0;
    while rank < specifiers.len()
        invariant
            rank <= specifiers@.len(),
            p == spec_matches(outputs@),
            forall|j: int| 0 <= j < rank ==> !p(#[trigger] specifiers@[j]),
        decreases specifiers@.len() - rank,
    {
        if let Some(id) = find_matching_output(specifiers[rank].as_str(), outputs) {
            proof {
                assert(is_first(specifiers@, p, rank as int));
                lemma_first_match_unique(specifiers@, p, rank as int);
            }
            return Some((rank, id));
        }
        rank += 1;
    }
    proof {
        lemma_first_match(specifiers@, p);
    }
    None
}

/// Try a fallback chain of specifiers against the current outputs; the
/// first specifier that matches picks the output.
pub fn find_preferred_output(specifiers: &[String], outputs: &[Output]) -> (r: Option<OutputId>)
    ensures
        r == preferred_output(specifiers@, outputs@),
{
    match find_preferred_output_ranked(specifiers, outputs) {
        Some((_, id)) => Some(id),
        None => None,
    }
}

} // verus!
