//! The store's backing-file format.
//!
//! A store is persisted as one JSON object,
//! `{"entries":{"<path>":{"frequency":N,"last_access":N},...}}`, rendered
//! compactly with the fields in exactly that order and with `"` and `\`
//! escaped by a backslash in path keys. The renderer and parser here are
//! exact inverses: parsing a rendered store yields the entries it was
//! rendered from, and anything the parser refuses loads as an empty store.

use vstd::prelude::*;

use crate::frecency::FrecencyEntry;

verus! {

/// The digit character for `d` (`d < 10`; other values give `'0'`).
pub open spec fn digit_char(d: nat) -> char {
    if d == 0 {
        '0'
    } else if d == 1 {
        '1'
    } else if d == 2 {
        '2'
    } else if d == 3 {
        '3'
    } else if d == 4 {
        '4'
    } else if d == 5 {
        '5'
    } else if d == 6 {
        '6'
    } else if d == 7 {
        '7'
    } else if d == 8 {
        '8'
    } else if d == 9 {
        '9'
    } else {
        '0'
    }
}

/// Whether `c` is a decimal digit.
pub open spec fn is_digit(c: char) -> bool {
    c == '0' || c == '1' || c == '2' || c == '3' || c == '4' || c == '5' || c == '6' || c == '7'
        || c == '8' || c == '9'
}

/// The value of digit character `c` (non-digits give 0).
pub open spec fn digit_of(c: char) -> nat {
    if c == '1' {
        1
    } else if c == '2' {
        2
    } else if c == '3' {
        3
    } else if c == '4' {
        4
    } else if c == '5' {
        5
    } else if c == '6' {
        6
    } else if c == '7' {
        7
    } else if c == '8' {
        8
    } else if c == '9' {
        9
    } else {
        0
    }
}

/// The decimal rendering of `n`, most significant digit first.
pub open spec fn render_u64(n: nat) -> Seq<char>
    decreases n,
{
    if n < 10 {
        seq![digit_char(n)]
    } else {
        render_u64(n / 10) + seq![digit_char(n % 10)]
    }
}

/// How a character appears inside a JSON string: `"` and `\` get a
/// backslash before them, everything else stands as itself.
pub open spec fn escape_char(c: char) -> Seq<char> {
    if c == '"' || c == '\\' {
        seq!['\\', c]
    } else {
        seq![c]
    }
}

/// The escaped form of a path key.
pub open spec fn escape_str(s: Seq<char>) -> Seq<char>
    decreases s.len(),
{
    if s.len() == 0 {
        Seq::empty()
    } else {
        escape_char(s[0]) + escape_str(s.drop_first())
    }
}

/// `{"entries":{`
pub open spec fn lit_prefix() -> Seq<char> {
    seq!['{', '"', 'e', 'n', 't', 'r', 'i', 'e', 's', '"', ':', '{']
}

/// `:{"frequency":`
pub open spec fn lit_frequency() -> Seq<char> {
    seq![':', '{', '"', 'f', 'r', 'e', 'q', 'u', 'e', 'n', 'c', 'y', '"', ':']
}

/// `,"last_access":`
pub open spec fn lit_last_access() -> Seq<char> {
    seq![',', '"', 'l', 'a', 's', 't', '_', 'a', 'c', 'c', 'e', 's', 's', '"', ':']
}

/// One rendered key-entry pair.
pub open spec fn render_pair(k: Seq<char>, e: FrecencyEntry) -> Seq<char> {
    seq!['"'] + escape_str(k) + seq!['"'] + lit_frequency() + render_u64(e.frequency as nat)
        + lit_last_access() + render_u64(e.last_access as nat) + seq!['}']
}

/// The rendered pair list, comma-separated.
pub open spec fn render_pairs(s: Seq<(Seq<char>, FrecencyEntry)>) -> Seq<char>
    decreases s.len(),
{
    if s.len() == 0 {
        Seq::empty()
    } else if s.len() == 1 {
        render_pair(s[0].0, s[0].1)
    } else {
        render_pair(s[0].0, s[0].1) + seq![','] + render_pairs(s.drop_first())
    }
}

/// The rendered store.
pub open spec fn render_store(s: Seq<(Seq<char>, FrecencyEntry)>) -> Seq<char> {
    lit_prefix() + render_pairs(s) + seq!['}', '}']
}

/// Relies on String::push: appends exactly the one character.
#[verifier::external_body]
fn push_char(s: &mut String, c: char)
    ensures
        final(s)@ == old(s)@.push(c),
{
    s.push(c);
}

/// The digit character for `d`.
fn digit_char_exec(d: u64) -> (r: char)
    requires
        d < 10,
    ensures
        r == digit_char(d as nat),
{
    if d == 0 {
        '0'
    } else if d == 1 {
        '1'
    } else if d == 2 {
        '2'
    } else if d == 3 {
        '3'
    } else if d == 4 {
        '4'
    } else if d == 5 {
        '5'
    } else if d == 6 {
        '6'
    } else if d == 7 {
        '7'
    } else {
        if d == 8 {
            '8'
        } else {
            '9'
        }
    }
}

/// Append the decimal rendering of `n` to `out`.
fn render_u64_into(n: u64, out: &mut String)
    ensures
        final(out)@ == old(out)@ + render_u64(n as nat),
    decreases n,
{
    if n < 10 {
        push_char(out, digit_char_exec(n));
        proof {
            assert(final(out)@ =~= old(out)@ + render_u64(n as nat));
        }
    } else {
        render_u64_into(n / 10, out);
        push_char(out, digit_char_exec(n % 10));
        proof {
            assert(final(out)@ =~= old(out)@ + render_u64(n as nat));
        }
    }
}

/// One escape step at the end of a key.
proof fn lemma_escape_push(s: Seq<char>, c: char)
    ensures
        escape_str(s.push(c)) == escape_str(s) + escape_char(c),
    decreases s.len(),
{
    if s.len() == 0 {
        assert(s.push(c)[0] == c);
        assert(s.push(c).drop_first() =~= Seq::<char>::empty());
        assert(escape_str(Seq::<char>::empty()) =~= Seq::<char>::empty());
        assert(escape_str(s.push(c)) =~= escape_str(s) + escape_char(c));
    } else {
        lemma_escape_push(s.drop_first(), c);
        assert(s.push(c).drop_first() =~= s.drop_first().push(c));
        assert(s.push(c)[0] == s[0]);
        assert(escape_str(s.push(c)) =~= escape_str(s) + escape_char(c));
    }
}

/// Append the escaped form of `s` to `out`.
fn escape_into(s: &str, out: &mut String)
    ensures
        final(out)@ == old(out)@ + escape_str(s@),
{
    let n = s.unicode_len();
    let mut i: usize = 0;
    proof {
        assert(s@.subrange(0, 0) =~= Seq::<char>::empty());
        assert(out@ + escape_str(s@.subrange(0, 0)) =~= out@);
    }
    while i < n
        invariant
            0 <= i <= n,
            n == s@.len(),
            out@ == old(out)@ + escape_str(s@.subrange(0, i as int)),
        decreases n - i,
    {
        let ghost before = out@;
        let c = s.get_char(i);
        if c == '"' || c == '\\' {
            push_char(out, '\\');
            push_char(out, c);
        } else {
            push_char(out, c);
        }
        proof {
            lemma_escape_push(s@.subrange(0, i as int), c);
            assert(s@.subrange(0, i + 1) =~= s@.subrange(0, i as int).push(c));
            assert(out@ =~= before + escape_char(c));
            assert(out@ =~= old(out)@ + escape_str(s@.subrange(0, i + 1)));
        }
        i = i + 1;
    }
    proof {
        assert(s@.subrange(0, n as int) =~= s@);
    }
}

/// Appending one more pair appends a comma and its rendering.
proof fn lemma_render_pairs_snoc(s: Seq<(Seq<char>, FrecencyEntry)>, p: (Seq<char>, FrecencyEntry))
    ensures
        s.len() == 0 ==> render_pairs(s.push(p)) == render_pair(p.0, p.1),
        s.len() >= 1 ==> render_pairs(s.push(p)) == render_pairs(s) + seq![','] + render_pair(
            p.0,
            p.1,
        ),
    decreases s.len(),
{
    if s.len() == 0 {
        assert(s.push(p)[0] == p);
        assert(render_pairs(s.push(p)) =~= render_pair(p.0, p.1));
    } else {
        lemma_render_pairs_snoc(s.drop_first(), p);
        assert(s.push(p).drop_first() =~= s.drop_first().push(p));
        assert(s.push(p)[0] == s[0]);
        if s.len() == 1 {
            assert(render_pairs(s.push(p)) =~= render_pairs(s) + seq![','] + render_pair(
                p.0,
                p.1,
            ));
        } else {
            assert(render_pairs(s.push(p)) =~= render_pairs(s) + seq![','] + render_pair(
                p.0,
                p.1,
            ));
        }
    }
}

/// Append one rendered key-entry pair to `out`.
fn render_pair_into(key: &str, entry: &FrecencyEntry, out: &mut String)
    ensures
        final(out)@ == old(out)@ + render_pair(key@, *entry),
{
    push_char(out, '"');
    escape_into(key, out);
    push_char(out, '"');
    out.append(":{\"frequency\":");
    proof {
        reveal_strlit(":{\"frequency\":");
        assert((":{\"frequency\":")@ =~= lit_frequency());
    }
    render_u64_into(entry.frequency as u64, out);
    out.append(",\"last_access\":");
    proof {
        reveal_strlit(",\"last_access\":");
        assert((",\"last_access\":")@ =~= lit_last_access());
    }
    render_u64_into(entry.last_access, out);
    push_char(out, '}');
    proof {
        assert(final(out)@ =~= old(out)@ + render_pair(key@, *entry));
    }
}

/// Render the entries as the store's backing-file text.
pub fn render_store_exec(entries: &Vec<(String, FrecencyEntry)>) -> (r: String)
    ensures
        r@ == render_store(entries@.map_values(|e: (String, FrecencyEntry)| (e.0@, e.1))),
{
    let ghost pairs = entries@.map_values(|e: (String, FrecencyEntry)| (e.0@, e.1));
    let mut out = String::new();
    out.append("{\"entries\":{");
    proof {
        reveal_strlit("{\"entries\":{");
        assert(("{\"entries\":{")@ =~= lit_prefix());
        assert(out@ =~= lit_prefix() + render_pairs(pairs.take(0)));
    }
    let n = entries.len();
    let mut i: usize = 0;
    while i < n
        invariant
            0 <= i <= n,
            n == entries@.len(),
            pairs == entries@.map_values(|e: (String, FrecencyEntry)| (e.0@, e.1)),
            out@ == lit_prefix() + render_pairs(pairs.take(i as int)),
        decreases n - i,
    {
        let ghost before = out@;
        if i > 0 {
            push_char(&mut out, ',');
        }
        let pair = &entries[i];
        render_pair_into(pair.0.as_str(), &pair.1, &mut out);
        proof {
            assert(pairs[i as int] == (entries@[i as int].0@, entries@[i as int].1));
            assert(pairs.take(i + 1) =~= pairs.take(i as int).push(pairs[i as int]));
            lemma_render_pairs_snoc(pairs.take(i as int), pairs[i as int]);
            if i > 0 {
                assert(out@ =~= lit_prefix() + render_pairs(pairs.take(i + 1)));
            } else {
                assert(out@ =~= lit_prefix() + render_pairs(pairs.take(i + 1)));
            }
        }
        i = i + 1;
    }
    out.append("}}");
    proof {
        reveal_strlit("}}");
        assert(("}}")@ =~= seq!['}', '}']);
        assert(pairs.take(n as int) =~= pairs);
        assert(out@ =~= render_store(pairs));
    }
    out
}

/// End of the digit run starting at `pos`.
pub open spec fn digits_end(s: Seq<char>, pos: int) -> int
    decreases s.len() - pos,
{
    if pos < 0 || pos >= s.len() || !is_digit(s[pos]) {
        pos
    } else {
        digits_end(s, pos + 1)
    }
}

pub proof fn lemma_digits_end_bounds(s: Seq<char>, pos: int)
    requires
        0 <= pos <= s.len(),
    ensures
        pos <= digits_end(s, pos) <= s.len(),
        forall|j: int| pos <= j < digits_end(s, pos) ==> is_digit(s[j]),
        digits_end(s, pos) < s.len() ==> !is_digit(s[digits_end(s, pos)]),
    decreases s.len() - pos,
{
    if pos < s.len() && is_digit(s[pos]) {
        lemma_digits_end_bounds(s, pos + 1);
    }
}

/// The value of the digits of `s` in `[pos, e)`.
pub open spec fn digits_val(s: Seq<char>, pos: int, e: int) -> nat
    decreases e - pos,
{
    if e <= pos {
        0
    } else {
        digits_val(s, pos, e - 1) * 10 + digit_of(s[e - 1])
    }
}

proof fn lemma_digits_val_monotone(s: Seq<char>, pos: int, j: int, e: int)
    requires
        pos <= j <= e,
    ensures
        digits_val(s, pos, j) <= digits_val(s, pos, e),
    decreases e - j,
{
    if j < e {
        lemma_digits_val_monotone(s, pos, j, e - 1);
    }
}

/// Parse an unsigned decimal number: the longest digit run, refused when
/// empty or when its value exceeds `u64::MAX`.
pub open spec fn parse_u64(s: Seq<char>, pos: int) -> Option<(nat, int)> {
    let e = digits_end(s, pos);
    if e == pos {
        None
    } else if digits_val(s, pos, e) > u64::MAX as nat {
        None
    } else {
        Some((digits_val(s, pos, e), e))
    }
}

/// Expect the exact characters of `lit` at `pos`.
pub open spec fn parse_lit(s: Seq<char>, pos: int, lit: Seq<char>) -> Option<int> {
    if 0 <= pos && pos + lit.len() <= s.len() && s.subrange(pos, pos + lit.len() as int) == lit {
        Some(pos + lit.len() as int)
    } else {
        None
    }
}

/// Parse a JSON string body from just after the opening quote to the
/// unescaped closing quote; a backslash takes the next character literally.
pub open spec fn parse_string_body(s: Seq<char>, pos: int) -> Option<(Seq<char>, int)>
    decreases s.len() - pos,
{
    if pos < 0 || pos >= s.len() {
        None
    } else if s[pos] == '"' {
        Some((Seq::empty(), pos + 1))
    } else if s[pos] == '\\' {
        if pos + 1 >= s.len() {
            None
        } else {
            match parse_string_body(s, pos + 2) {
                Some((t, e)) => Some((seq![s[pos + 1]] + t, e)),
                None => None,
            }
        }
    } else {
        match parse_string_body(s, pos + 1) {
            Some((t, e)) => Some((seq![s[pos]] + t, e)),
            None => None,
        }
    }
}

pub proof fn lemma_parse_string_body_advances(s: Seq<char>, pos: int)
    ensures
        match parse_string_body(s, pos) {
            Some((t, e)) => pos < e <= s.len(),
            None => true,
        },
    decreases s.len() - pos,
{
    if 0 <= pos && pos < s.len() {
        if s[pos] == '\\' {
            if pos + 1 < s.len() {
                lemma_parse_string_body_advances(s, pos + 2);
            }
        } else if s[pos] != '"' {
            lemma_parse_string_body_advances(s, pos + 1);
        }
    }
}

/// Parse one `"key":{"frequency":N,"last_access":N}` pair.
pub open spec fn parse_pair(s: Seq<char>, pos: int) -> Option<((Seq<char>, FrecencyEntry), int)> {
    if !(0 <= pos && pos < s.len() && s[pos] == '"') {
        None
    } else {
        match parse_string_body(s, pos + 1) {
            None => None,
            Some((k, p1)) => match parse_lit(s, p1, lit_frequency()) {
                None => None,
                Some(p2) => match parse_u64(s, p2) {
                    None => None,
                    Some((f, p3)) => if f > u32::MAX as nat {
                        None
                    } else {
                        match parse_lit(s, p3, lit_last_access()) {
                            None => None,
                            Some(p4) => match parse_u64(s, p4) {
                                None => None,
                                Some((l, p5)) => match parse_lit(s, p5, seq!['}']) {
                                    None => None,
                                    Some(p6) => Some(
                                        (
                                            (
                                                k,
                                                FrecencyEntry {
                                                    frequency: f as u32,
                                                    last_access: l as u64,
                                                },
                                            ),
                                            p6,
                                        ),
                                    ),
                                },
                            },
                        }
                    },
                },
            },
        }
    }
}

pub proof fn lemma_parse_pair_advances(s: Seq<char>, pos: int)
    ensures
        match parse_pair(s, pos) {
            Some((p, e)) => pos < e <= s.len(),
            None => true,
        },
{
    if 0 <= pos && pos < s.len() && s[pos] == '"' {
        lemma_parse_string_body_advances(s, pos + 1);
        match parse_string_body(s, pos + 1) {
            None => {},
            Some((k, p1)) => {
                match parse_lit(s, p1, lit_frequency()) {
                    None => {},
                    Some(p2) => {
                        lemma_digits_end_bounds(s, p2);
                        match parse_u64(s, p2) {
                            None => {},
                            Some((f, p3)) => {
                                match parse_lit(s, p3, lit_last_access()) {
                                    None => {},
                                    Some(p4) => {
                                        lemma_digits_end_bounds(s, p4);
                                    },
                                }
                            },
                        }
                    },
                }
            },
        }
    }
}

/// Parse the comma-separated pair list.
pub open spec fn parse_pairs(s: Seq<char>, pos: int) -> Option<
    (Seq<(Seq<char>, FrecencyEntry)>, int),
>
    decreases s.len() - pos,
        via parse_pairs_decreases
{
    match parse_pair(s, pos) {
        None => None,
        Some((p, e)) => {
            if 0 <= e && e < s.len() && s[e] == ',' {
                match parse_pairs(s, e + 1) {
                    None => None,
                    Some((rest, e2)) => Some((seq![p] + rest, e2)),
                }
            } else {
                Some((seq![p], e))
            }
        },
    }
}

#[via_fn]
proof fn parse_pairs_decreases(s: Seq<char>, pos: int) {
    lemma_parse_pair_advances(s, pos);
}

/// Parse a whole backing file. The entry object may be empty; anything but
/// the exact format is refused.
pub open spec fn parse_store(s: Seq<char>) -> Option<Seq<(Seq<char>, FrecencyEntry)>> {
    match parse_lit(s, 0, lit_prefix()) {
        None => None,
        Some(p0) => {
            if p0 + 2 == s.len() && s[p0] == '}' && s[p0 + 1] == '}' {
                Some(Seq::empty())
            } else {
                match parse_pairs(s, p0) {
                    None => None,
                    Some((ps, p1)) => {
                        if p1 + 2 == s.len() && s[p1] == '}' && s[p1 + 1] == '}' {
                            Some(ps)
                        } else {
                            None
                        }
                    },
                }
            }
        },
    }
}

/// The characters of `s` as a vector.
fn to_chars(s: &str) -> (r: Vec<char>)
    ensures
        r@ == s@,
{
    let n = s.unicode_len();
    let mut out: Vec<char> = Vec::new();
    let mut i: usize = 0;
    while i < n
        invariant
            0 <= i <= n,
            n == s@.len(),
            out@ =~= s@.subrange(0, i as int),
        decreases n - i,
    {
        out.push(s.get_char(i));
        proof {
            assert(out@ =~= s@.subrange(0, i + 1));
        }
        i = i + 1;
    }
    proof {
        assert(s@.subrange(0, n as int) =~= s@);
    }
    out
}

/// Whether `c` is a decimal digit.
fn is_digit_exec(c: char) -> (r: bool)
    ensures
        r == is_digit(c),
{
    c == '0' || c == '1' || c == '2' || c == '3' || c == '4' || c == '5' || c == '6' || c == '7'
        || c == '8' || c == '9'
}

/// The value of digit character `c`.
fn digit_of_exec(c: char) -> (r: u64)
    ensures
        r == digit_of(c),
        r <= 9,
{
    if c == '1' {
        1
    } else if c == '2' {
        2
    } else if c == '3' {
        3
    } else if c == '4' {
        4
    } else if c == '5' {
        5
    } else if c == '6' {
        6
    } else if c == '7' {
        7
    } else if c == '8' {
        8
    } else {
        if c == '9' {
            9
        } else {
            0
        }
    }
}

/// Parse an unsigned decimal number at `pos`.
fn parse_u64_exec(v: &Vec<char>, pos: usize) -> (r: Option<(u64, usize)>)
    requires
        pos <= v@.len(),
    ensures
        match r {
            Some((x, e)) => parse_u64(v@, pos as int) == Some((x as nat, e as int)) && pos < e
                <= v@.len(),
            None => parse_u64(v@, pos as int) is None,
        },
{
    let n = v.len();
    let mut j: usize = pos;
    while j < n && is_digit_exec(v[j])
        invariant
            pos <= j <= n,
            n == v@.len(),
            digits_end(v@, pos as int) == digits_end(v@, j as int),
        decreases n - j,
    {
        j = j + 1;
    }
    proof {
        lemma_digits_end_bounds(v@, pos as int);
    }
    let e = j;
    proof {
        assert(digits_end(v@, e as int) == e as int);
        assert(digits_end(v@, pos as int) == e as int);
    }
    if e == pos {
        return None;
    }
    let mut val: u64 = 0;
    let mut j: usize = pos;
    while j < e
        invariant
            pos <= j <= e,
            e <= v@.len(),
            pos < e,
            digits_end(v@, pos as int) == e as int,
            val == digits_val(v@, pos as int, j as int),
        decreases e - j,
    {
        let d = digit_of_exec(v[j]);
        let wide: u128 = (val as u128) * 10 + (d as u128);
        proof {
            assert(digits_val(v@, pos as int, j + 1) == digits_val(v@, pos as int, j as int)
                * 10 + digit_of(v@[j as int]));
        }
        if wide > 0xffff_ffff_ffff_ffffu128 {
            proof {
                assert(digits_val(v@, pos as int, j + 1) > u64::MAX as nat);
                lemma_digits_val_monotone(v@, pos as int, j + 1, e as int);
                assert(digits_val(v@, pos as int, e as int) > u64::MAX as nat);
            }
            return None;
        }
        val = wide as u64;
        j = j + 1;
    }
    Some((val, e))
}

/// Expect `lit_prefix` at the start.
fn match_prefix(v: &Vec<char>) -> (r: Option<usize>)
    ensures
        match r {
            Some(e) => parse_lit(v@, 0, lit_prefix()) == Some(e as int) && e <= v@.len(),
            None => parse_lit(v@, 0, lit_prefix()) is None,
        },
{
    if v.len() < 12 {
        return None;
    }
    let ok = v[0] == '{' && v[1] == '"' && v[2] == 'e' && v[3] == 'n' && v[4] == 't' && v[5]
        == 'r' && v[6] == 'i' && v[7] == 'e' && v[8] == 's' && v[9] == '"' && v[10] == ':'
        && v[11] == '{';
    if ok {
        proof {
            assert(v@.subrange(0, 12) =~= lit_prefix());
        }
        Some(12)
    } else {
        proof {
            assert(v@.subrange(0, 12) != lit_prefix()) by {
                if v@.subrange(0, 12) == lit_prefix() {
                    assert(v@.subrange(0, 12)[0] == v@[0]);
                    assert(v@.subrange(0, 12)[1] == v@[1]);
                    assert(v@.subrange(0, 12)[2] == v@[2]);
                    assert(v@.subrange(0, 12)[3] == v@[3]);
                    assert(v@.subrange(0, 12)[4] == v@[4]);
                    assert(v@.subrange(0, 12)[5] == v@[5]);
                    assert(v@.subrange(0, 12)[6] == v@[6]);
                    assert(v@.subrange(0, 12)[7] == v@[7]);
                    assert(v@.subrange(0, 12)[8] == v@[8]);
                    assert(v@.subrange(0, 12)[9] == v@[9]);
                    assert(v@.subrange(0, 12)[10] == v@[10]);
                    assert(v@.subrange(0, 12)[11] == v@[11]);
                }
            }
        }
        None
    }
}

/// Expect `lit_frequency` at `pos`.
fn match_lit_frequency(v: &Vec<char>, pos: usize) -> (r: Option<usize>)
    requires
        pos <= v@.len(),
    ensures
        match r {
            Some(e) => parse_lit(v@, pos as int, lit_frequency()) == Some(e as int) && e
                <= v@.len(),
            None => parse_lit(v@, pos as int, lit_frequency()) is None,
        },
{
    if v.len() - pos < 14 {
        return None;
    }
    let ok = v[pos] == ':' && v[pos + 1] == '{' && v[pos + 2] == '"' && v[pos + 3] == 'f'
        && v[pos + 4] == 'r' && v[pos + 5] == 'e' && v[pos + 6] == 'q' && v[pos + 7] == 'u'
        && v[pos + 8] == 'e' && v[pos + 9] == 'n' && v[pos + 10] == 'c' && v[pos + 11] == 'y'
        && v[pos + 12] == '"' && v[pos + 13] == ':';
    if ok {
        proof {
            assert(v@.subrange(pos as int, pos + 14) =~= lit_frequency());
        }
        Some(pos + 14)
    } else {
        proof {
            assert(v@.subrange(pos as int, pos + 14) != lit_frequency()) by {
                if v@.subrange(pos as int, pos + 14) == lit_frequency() {
                    assert(forall|j: int|
                        0 <= j < 14 ==> #[trigger] v@.subrange(pos as int, pos + 14)[j] == v@[pos
                            + j]);
                }
            }
        }
        None
    }
}

/// Expect `lit_last_access` at `pos`.
fn match_lit_last_access(v: &Vec<char>, pos: usize) -> (r: Option<usize>)
    requires
        pos <= v@.len(),
    ensures
        match r {
            Some(e) => parse_lit(v@, pos as int, lit_last_access()) == Some(e as int) && e
                <= v@.len(),
            None => parse_lit(v@, pos as int, lit_last_access()) is None,
        },
{
    if v.len() - pos < 15 {
        return None;
    }
    let ok = v[pos] == ',' && v[pos + 1] == '"' && v[pos + 2] == 'l' && v[pos + 3] == 'a'
        && v[pos + 4] == 's' && v[pos + 5] == 't' && v[pos + 6] == '_' && v[pos + 7] == 'a'
        && v[pos + 8] == 'c' && v[pos + 9] == 'c' && v[pos + 10] == 'e' && v[pos + 11] == 's'
        && v[pos + 12] == 's' && v[pos + 13] == '"' && v[pos + 14] == ':';
    if ok {
        proof {
            assert(v@.subrange(pos as int, pos + 15) =~= lit_last_access());
        }
        Some(pos + 15)
    } else {
        proof {
            assert(v@.subrange(pos as int, pos + 15) != lit_last_access()) by {
                if v@.subrange(pos as int, pos + 15) == lit_last_access() {
                    assert(forall|j: int|
                        0 <= j < 15 ==> #[trigger] v@.subrange(pos as int, pos + 15)[j] == v@[pos
                            + j]);
                }
            }
        }
        None
    }
}

/// Parse a JSON string body starting just after the opening quote.
fn parse_string_exec(v: &Vec<char>, pos: usize) -> (r: Option<(String, usize)>)
    requires
        pos <= v@.len(),
    ensures
        match r {
            Some((t, e)) => parse_string_body(v@, pos as int) == Some((t@, e as int)) && pos < e
                <= v@.len(),
            None => parse_string_body(v@, pos as int) is None,
        },
    decreases v@.len() - pos,
{
    if pos >= v.len() {
        return None;
    }
    let c = v[pos];
    if c == '"' {
        let empty = String::new();
        proof {
            assert(empty@ =~= Seq::<char>::empty());
        }
        Some((empty, pos + 1))
    } else if c == '\\' {
        if pos + 1 >= v.len() {
            None
        } else {
            match parse_string_exec(v, pos + 2) {
                Some((t, e)) => {
                    let mut s0 = String::new();
                    push_char(&mut s0, v[pos + 1]);
                    s0.append(t.as_str());
                    proof {
                        assert(s0@ =~= seq![v@[pos + 1]] + t@);
                    }
                    Some((s0, e))
                },
                None => None,
            }
        }
    } else {
        match parse_string_exec(v, pos + 1) {
            Some((t, e)) => {
                let mut s0 = String::new();
                push_char(&mut s0, c);
                s0.append(t.as_str());
                proof {
                    assert(s0@ =~= seq![v@[pos as int]] + t@);
                }
                Some((s0, e))
            },
            None => None,
        }
    }
}

/// Parse one key-entry pair at `pos`.
fn parse_pair_exec(v: &Vec<char>, pos: usize) -> (r: Option<((String, FrecencyEntry), usize)>)
    requires
        pos <= v@.len(),
    ensures
        match r {
            Some((p, e)) => parse_pair(v@, pos as int) == Some(((p.0@, p.1), e as int)) && pos < e
                <= v@.len(),
            None => parse_pair(v@, pos as int) is None,
        },
{
    if pos >= v.len() || v[pos] != '"' {
        return None;
    }
    let (key, p1) = match parse_string_exec(v, pos + 1) {
        Some(x) => x,
        None => {
            return None;
        },
    };
    let p2 = match match_lit_frequency(v, p1) {
        Some(x) => x,
        None => {
            return None;
        },
    };
    let (f, p3) = match parse_u64_exec(v, p2) {
        Some(x) => x,
        None => {
            return None;
        },
    };
    if f > 0xffff_ffffu64 {
        return None;
    }
    let p4 = match match_lit_last_access(v, p3) {
        Some(x) => x,
        None => {
            return None;
        },
    };
    let (l, p5) = match parse_u64_exec(v, p4) {
        Some(x) => x,
        None => {
            return None;
        },
    };
    if p5 >= v.len() || v[p5] != '}' {
        proof {
            assert(parse_lit(v@, p5 as int, seq!['}']) is None) by {
                if p5 < v@.len() {
                    assert(v@.subrange(p5 as int, p5 + 1)[0] == v@[p5 as int]);
                }
            }
        }
        return None;
    }
    proof {
        assert(v@.subrange(p5 as int, p5 + 1) =~= seq!['}']);
    }
    let entry = FrecencyEntry { frequency: f as u32, last_access: l };
    Some(((key, entry), p5 + 1))
}

/// Parse the pair list at `pos`.
fn parse_pairs_exec(v: &Vec<char>, pos: usize) -> (r: Option<(Vec<(String, FrecencyEntry)>, usize)>)
    requires
        pos <= v@.len(),
    ensures
        match r {
            Some((ps, e)) => parse_pairs(v@, pos as int) == Some(
                (ps@.map_values(|p: (String, FrecencyEntry)| (p.0@, p.1)), e as int),
            ) && e <= v@.len(),
            None => parse_pairs(v@, pos as int) is None,
        },
{
    let mut acc: Vec<(String, FrecencyEntry)> = Vec::new();
    let mut cur: usize = pos;
    loop
        invariant
            pos <= cur <= v@.len(),
            match parse_pairs(v@, cur as int) {
                Some((rest, e)) => parse_pairs(v@, pos as int) == Some(
                    (acc@.map_values(|p: (String, FrecencyEntry)| (p.0@, p.1)) + rest, e),
                ),
                None => parse_pairs(v@, pos as int) is None,
            },
        ensures
            match parse_pairs(v@, pos as int) {
                Some((all, e)) => acc@.map_values(|p: (String, FrecencyEntry)| (p.0@, p.1))
                    == all && cur == e && e <= v@.len(),
                None => false,
            } || (acc@.len() == 0 && parse_pairs(v@, pos as int) is None && cur == cur),
        decreases v@.len() - cur,
    {
        let ghost acc_view = acc@.map_values(|p: (String, FrecencyEntry)| (p.0@, p.1));
        match parse_pair_exec(v, cur) {
            None => {
                proof {
                    assert(parse_pairs(v@, cur as int) is None);
                }
                return None;
            },
            Some((p, e1)) => {
                let ghost pv = (p.0@, p.1);
                acc.push(p);
                proof {
                    assert(acc@.map_values(|p: (String, FrecencyEntry)| (p.0@, p.1)) =~= acc_view
                        + seq![pv]);
                }
                if e1 < v.len() && v[e1] == ',' {
                    proof {
                        match parse_pairs(v@, e1 + 1) {
                            Some((rest2, e2)) => {
                                assert(parse_pairs(v@, cur as int) == Some(
                                    (seq![pv] + rest2, e2),
                                ));
                                assert((acc_view + seq![pv]) + rest2 =~= acc_view + (seq![pv]
                                    + rest2));
                            },
                            None => {
                                assert(parse_pairs(v@, cur as int) is None);
                            },
                        }
                    }
                    cur = e1 + 1;
                } else {
                    proof {
                        assert(parse_pairs(v@, cur as int) == Some((seq![pv], e1 as int)));
                        assert((acc_view + seq![pv]) =~= acc_view + seq![pv]);
                    }
                    return Some((acc, e1));
                }
            },
        }
    }
}

/// Parse a backing file's text into its key-entry pairs; `None` when the
/// text is not exactly a rendered store.
pub fn parse_store_exec(s: &str) -> (r: Option<Vec<(String, FrecencyEntry)>>)
    ensures
        match r {
            Some(ps) => parse_store(s@) == Some(
                ps@.map_values(|p: (String, FrecencyEntry)| (p.0@, p.1)),
            ),
            None => parse_store(s@) is None,
        },
{
    let v = to_chars(s);
    let p0 = match match_prefix(&v) {
        Some(x) => x,
        None => {
            return None;
        },
    };
    if p0 + 2 == v.len() && v[p0] == '}' && v[p0 + 1] == '}' {
        let none_yet: Vec<(String, FrecencyEntry)> = Vec::new();
        proof {
            assert(none_yet@.map_values(|p: (String, FrecencyEntry)| (p.0@, p.1))
                =~= Seq::<(Seq<char>, FrecencyEntry)>::empty());
        }
        return Some(none_yet);
    }
    let (ps, p1) = match parse_pairs_exec(&v, p0) {
        Some(x) => x,
        None => {
            return None;
        },
    };
    if v.len() - p1 == 2 && v[p1] == '}' && v[p1 + 1] == '}' {
        Some(ps)
    } else {
        None
    }
}

/// A rendered number is a non-empty run of digits.
proof fn lemma_render_u64_props(n: nat)
    ensures
        render_u64(n).len() >= 1,
        forall|j: int| 0 <= j < render_u64(n).len() ==> is_digit(#[trigger] render_u64(n)[j]),
    decreases n,
{
    if n >= 10 {
        lemma_render_u64_props(n / 10);
    }
}

/// A digit run bounded by a non-digit is exactly what the scanner finds.
proof fn lemma_digits_end_run(s: Seq<char>, pos: int, q: int)
    requires
        0 <= pos <= q <= s.len(),
        forall|j: int| pos <= j < q ==> is_digit(#[trigger] s[j]),
        q < s.len() ==> !is_digit(s[q]),
    ensures
        digits_end(s, pos) == q,
    decreases q - pos,
{
    if pos < q {
        lemma_digits_end_run(s, pos + 1, q);
    }
}

/// The scanner's value of a rendered number is the number.
proof fn lemma_digits_val_of_render(s: Seq<char>, pos: int, n: nat)
    requires
        0 <= pos,
        pos + render_u64(n).len() <= s.len(),
        s.subrange(pos, pos + render_u64(n).len() as int) == render_u64(n),
    ensures
        digits_val(s, pos, pos + render_u64(n).len() as int) == n,
    decreases n,
{
    let len = render_u64(n).len() as int;
    if n < 10 {
        assert(render_u64(n) == seq![digit_char(n)]);
        assert(s[pos] == digit_char(n)) by {
            assert(s.subrange(pos, pos + 1)[0] == s[pos]);
            assert(render_u64(n)[0] == digit_char(n));
        }
        assert(digit_of(digit_char(n)) == n);
        assert(digits_val(s, pos, pos + 1) == digits_val(s, pos, pos) * 10 + digit_of(s[pos]));
    } else {
        lemma_render_u64_props(n / 10);
        let prefix = render_u64((n / 10) as nat);
        let plen = prefix.len() as int;
        assert(render_u64(n) == prefix + seq![digit_char(n % 10)]);
        assert(len == plen + 1);
        lemma_split_concat(s, pos, prefix, seq![digit_char(n % 10)]);
        lemma_digits_val_of_render(s, pos, (n / 10) as nat);
        assert(s[pos + plen] == digit_char(n % 10)) by {
            assert(s.subrange(pos + plen, pos + plen + 1)[0] == s[pos + plen]);
        }
        assert(digit_of(digit_char(n % 10)) == n % 10);
        assert(digits_val(s, pos, pos + len) == digits_val(s, pos, pos + plen) * 10 + digit_of(
            s[pos + plen],
        ));
        vstd::arithmetic::div_mod::lemma_fundamental_div_mod(n as int, 10);
    }
}

/// Parsing a rendered number at its place gives the number back.
proof fn lemma_parse_u64_of_render(s: Seq<char>, pos: int, n: nat)
    requires
        0 <= pos,
        n <= u64::MAX as nat,
        pos + render_u64(n).len() <= s.len(),
        s.subrange(pos, pos + render_u64(n).len() as int) == render_u64(n),
        pos + render_u64(n).len() == s.len() || !is_digit(s[pos + render_u64(n).len()]),
    ensures
        parse_u64(s, pos) == Some((n, pos + render_u64(n).len() as int)),
{
    let len = render_u64(n).len() as int;
    lemma_render_u64_props(n);
    assert(forall|j: int| pos <= j < pos + len ==> is_digit(#[trigger] s[j])) by {
        assert(forall|j: int|
            0 <= j < len ==> #[trigger] s.subrange(pos, pos + len)[j] == s[pos + j]);
        assert(forall|j: int|
            pos <= j < pos + len ==> is_digit(#[trigger] s[j]) == is_digit(
                render_u64(n)[j - pos],
            ));
    }
    lemma_digits_end_run(s, pos, pos + len);
    lemma_digits_val_of_render(s, pos, n);
}

/// Parsing an escaped key followed by its closing quote gives the key back.
proof fn lemma_parse_string_of_escape(s: Seq<char>, pos: int, k: Seq<char>)
    requires
        0 <= pos,
        pos + escape_str(k).len() + 1 <= s.len(),
        s.subrange(pos, pos + escape_str(k).len() + 1) == escape_str(k) + seq!['"'],
    ensures
        parse_string_body(s, pos) == Some((k, pos + escape_str(k).len() + 1)),
    decreases k.len(),
{
    let el = escape_str(k).len() as int;
    if k.len() == 0 {
        assert(escape_str(k) + seq!['"'] =~= seq!['"']);
        assert(s[pos] == '"') by {
            assert(s.subrange(pos, pos + 1)[0] == s[pos]);
            assert((seq!['"'])[0] == '"');
        }
    } else {
        let c = k[0];
        let ktail = k.drop_first();
        let etail = escape_str(ktail);
        let ec = escape_char(c);
        assert(escape_str(k) == ec + etail);
        assert(escape_str(k) + seq!['"'] =~= ec + (etail + seq!['"']));
        lemma_split_concat(s, pos, ec, etail + seq!['"']);
        if c == '"' || c == '\\' {
            assert(s[pos] == '\\' && s[pos + 1] == c) by {
                assert(s.subrange(pos, pos + 2)[0] == s[pos]);
                assert(s.subrange(pos, pos + 2)[1] == s[pos + 1]);
                assert(ec[0] == '\\' && ec[1] == c);
            }
            lemma_parse_string_of_escape(s, pos + 2, ktail);
            assert(seq![s[pos + 1]] + ktail =~= k);
        } else {
            assert(s[pos] == c) by {
                assert(s.subrange(pos, pos + 1)[0] == s[pos]);
                assert(ec[0] == c);
            }
            lemma_parse_string_of_escape(s, pos + 1, ktail);
            assert(seq![s[pos]] + ktail =~= k);
        }
    }
}

/// Splitting a known concatenation out of `s`.
proof fn lemma_split_concat(s: Seq<char>, a: int, x: Seq<char>, y: Seq<char>)
    requires
        0 <= a,
        a + x.len() + y.len() <= s.len(),
        s.subrange(a, a + x.len() + y.len()) == x + y,
    ensures
        s.subrange(a, a + x.len() as int) == x,
        s.subrange(a + x.len() as int, a + x.len() + y.len()) == y,
{
    let b = a + x.len() + y.len();
    assert forall|j: int| 0 <= j < x.len() + y.len() implies s[a + j] == (x + y)[j] by {
        assert(s.subrange(a, b)[j] == s[a + j]);
    }
    assert(s.subrange(a, a + x.len() as int) =~= x) by {
        assert forall|j: int|
            0 <= j < x.len() implies s.subrange(a, a + x.len() as int)[j] == x[j] by {
            assert(s[a + j] == (x + y)[j]);
            assert((x + y)[j] == x[j]);
        }
    }
    assert(s.subrange(a + x.len() as int, b) =~= y) by {
        assert forall|j: int|
            0 <= j < y.len() implies s.subrange(a + x.len() as int, b)[j] == y[j] by {
            assert(s[a + x.len() + j] == (x + y)[x.len() + j]);
            assert((x + y)[x.len() + j] == y[j]);
        }
    }
}

/// Parsing a rendered pair at its place gives the pair back.
proof fn lemma_parse_pair_of_render(s: Seq<char>, pos: int, k: Seq<char>, en: FrecencyEntry)
    requires
        0 <= pos,
        pos + render_pair(k, en).len() <= s.len(),
        s.subrange(pos, pos + render_pair(k, en).len() as int) == render_pair(k, en),
    ensures
        parse_pair(s, pos) == Some(((k, en), pos + render_pair(k, en).len() as int)),
{
    let esc = escape_str(k);
    let rf = render_u64(en.frequency as nat);
    let rl = render_u64(en.last_access as nat);
    let len = render_pair(k, en).len() as int;
    lemma_render_u64_props(en.frequency as nat);
    lemma_render_u64_props(en.last_access as nat);
    // Peel the pair apart, left to right.
    let q1 = pos + 1;
    let rest1 = esc + seq!['"'] + lit_frequency() + rf + lit_last_access() + rl + seq!['}'];
    assert(render_pair(k, en) =~= seq!['"'] + rest1);
    lemma_split_concat(s, pos, seq!['"'], rest1);
    assert(s[pos] == '"') by {
        assert(s.subrange(pos, pos + 1)[0] == s[pos]);
    }
    let q2 = q1 + esc.len() + 1;
    let rest2 = lit_frequency() + rf + lit_last_access() + rl + seq!['}'];
    assert(rest1 =~= (esc + seq!['"']) + rest2);
    lemma_split_concat(s, q1, esc + seq!['"'], rest2);
    lemma_parse_string_of_escape(s, q1, k);
    let q3 = q2 + lit_frequency().len();
    let rest3 = rf + lit_last_access() + rl + seq!['}'];
    assert(rest2 =~= lit_frequency() + rest3);
    lemma_split_concat(s, q2, lit_frequency(), rest3);
    assert(parse_lit(s, q2, lit_frequency()) == Some(q3));
    let q4 = q3 + rf.len();
    let rest4 = lit_last_access() + rl + seq!['}'];
    assert(rest3 =~= rf + rest4);
    lemma_split_concat(s, q3, rf, rest4);
    assert(s[q4] == ',') by {
        assert(s.subrange(q4, q4 + rest4.len() as int)[0] == s[q4]);
        assert(rest4[0] == ',');
    }
    lemma_parse_u64_of_render(s, q3, en.frequency as nat);
    let q5 = q4 + lit_last_access().len();
    let rest5 = rl + seq!['}'];
    assert(rest4 =~= lit_last_access() + rest5);
    lemma_split_concat(s, q4, lit_last_access(), rest5);
    assert(parse_lit(s, q4, lit_last_access()) == Some(q5));
    let q6 = q5 + rl.len();
    assert(rest5 =~= rl + seq!['}']);
    lemma_split_concat(s, q5, rl, seq!['}']);
    assert(s[q6] == '}') by {
        assert(s.subrange(q6, q6 + 1)[0] == s[q6]);
    }
    lemma_parse_u64_of_render(s, q5, en.last_access as nat);
    assert(parse_lit(s, q6, seq!['}']) == Some(q6 + 1)) by {
        assert(s.subrange(q6, q6 + 1) =~= seq!['}']);
    }
    assert(q6 + 1 == pos + len);
    assert(en == FrecencyEntry {
        frequency: (en.frequency as nat) as u32,
        last_access: (en.last_access as nat) as u64,
    });
}

/// Parsing a rendered pair list at its place gives the pairs back.
proof fn lemma_parse_pairs_of_render(s: Seq<char>, pos: int, ps: Seq<(Seq<char>, FrecencyEntry)>)
    requires
        0 <= pos,
        ps.len() >= 1,
        pos + render_pairs(ps).len() <= s.len(),
        s.subrange(pos, pos + render_pairs(ps).len() as int) == render_pairs(ps),
        pos + render_pairs(ps).len() == s.len() || s[pos + render_pairs(ps).len()] != ',',
    ensures
        parse_pairs(s, pos) == Some((ps, pos + render_pairs(ps).len() as int)),
    decreases ps.len(),
{
    let len = render_pairs(ps).len() as int;
    let p0 = render_pair(ps[0].0, ps[0].1);
    if ps.len() == 1 {
        assert(render_pairs(ps) == p0);
        lemma_parse_pair_of_render(s, pos, ps[0].0, ps[0].1);
        let e = pos + p0.len();
        assert(e == s.len() || s[e] != ',');
        assert(seq![ps[0]] =~= ps);
    } else {
        let rest = render_pairs(ps.drop_first());
        assert(render_pairs(ps) == p0 + seq![','] + rest);
        let reassoc = seq![','] + rest;
        assert(render_pairs(ps) =~= p0 + reassoc);
        lemma_split_concat(s, pos, p0, reassoc);
        lemma_parse_pair_of_render(s, pos, ps[0].0, ps[0].1);
        let e1 = pos + p0.len();
        assert(s[e1] == ',') by {
            assert(s.subrange(e1, e1 + reassoc.len() as int)[0] == s[e1]);
            assert(reassoc[0] == ',');
        }
        assert(reassoc =~= seq![','] + rest);
        lemma_split_concat(s, e1, seq![','], rest);
        assert(0 <= e1 + 1);
        assert(ps.drop_first().len() >= 1);
        lemma_parse_pairs_of_render(s, e1 + 1, ps.drop_first());
        assert(seq![ps[0]] + ps.drop_first() =~= ps);
    }
}

/// Round-trip law: a rendered store parses back to exactly the entries it
/// was rendered from.
pub proof fn lemma_store_round_trip(ps: Seq<(Seq<char>, FrecencyEntry)>)
    ensures
        parse_store(render_store(ps)) == Some(ps),
{
    let s = render_store(ps);
    let body = render_pairs(ps);
    assert(s =~= lit_prefix() + (body + seq!['}', '}']));
    assert(s.subrange(0, s.len() as int) =~= s);
    lemma_split_concat(s, 0, lit_prefix(), body + seq!['}', '}']);
    assert(parse_lit(s, 0, lit_prefix()) == Some(12int)) by {
        assert(s.subrange(0, 12) =~= lit_prefix());
    }
    lemma_split_concat(s, 12, body, seq!['}', '}']);
    let p1 = 12 + body.len() as int;
    assert(s[p1] == '}' && s[p1 + 1] == '}') by {
        assert(s.subrange(p1, p1 + 2)[0] == s[p1]);
        assert(s.subrange(p1, p1 + 2)[1] == s[p1 + 1]);
    }
    if ps.len() == 0 {
        assert(body.len() == 0);
        assert(12 + 2 == s.len());
    } else {
        assert(render_pair(ps[0].0, ps[0].1).len() >= 1) by {
            lemma_render_u64_props(ps[0].1.frequency as nat);
            lemma_render_u64_props(ps[0].1.last_access as nat);
        }
        assert(body.len() >= 1);
        assert(12 + 2 != s.len());
        lemma_parse_pairs_of_render(s, 12, ps);
        assert(p1 + 2 == s.len());
    }
}

} // verus!
