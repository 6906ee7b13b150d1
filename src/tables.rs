use vstd::prelude::*;

use crate::priors::{distinct_strings, string_set, SetupError};
use crate::trie::Trie;

verus! {

/// The pieces of `t` between occurrences of `sep`: one more piece than there are separators.
pub open spec fn split_on(t: Seq<u8>, sep: u8) -> Seq<Seq<u8>>
    decreases t.len(),
{
    if t.len() == 0 {
        seq![Seq::<u8>::empty()]
    } else {
        let rest = split_on(t.drop_last(), sep);
        if t.last() == sep {
            rest.push(Seq::<u8>::empty())
        } else {
            rest.update(rest.len() - 1, rest.last().push(t.last()))
        }
    }
}

/// ASCII whitespace: space, tab, line feed, vertical tab, form feed, carriage return.
/// Barcodes and counts are ASCII, so whitespace outside ASCII is not trimmed.
pub open spec fn is_space(b: u8) -> bool {
    b == 32 || (9 <= b && b <= 13)
}

/// `s` without its trailing whitespace.
pub open spec fn trim_end(s: Seq<u8>) -> Seq<u8>
    decreases s.len(),
{
    if s.len() > 0 && is_space(s.last()) {
        trim_end(s.drop_last())
    } else {
        s
    }
}

/// `s` without its leading whitespace.
pub open spec fn trim_start(s: Seq<u8>) -> Seq<u8>
    decreases s.len(),
{
    if s.len() > 0 && is_space(s[0]) {
        trim_start(s.drop_first())
    } else {
        s
    }
}

/// The views of byte vectors.
pub open spec fn views(s: Seq<Vec<u8>>) -> Seq<Seq<u8>> {
    Seq::new(s.len(), |i: int| s[i]@)
}

/// The whitelist a text names: its lines, each without trailing whitespace, blank lines left
/// out.
pub open spec fn whitelist_entries(text: Seq<u8>) -> Set<Seq<u8>> {
    Set::new(
        |w: Seq<u8>|
            w.len() > 0 && exists|i: int|
                0 <= i < split_on(text, 10).len() && #[trigger] trim_end(split_on(text, 10)[i]) == w,
    )
}

/// The bytes `s[a..b]` as a vector.
pub fn copy_range(s: &[u8], a: usize, b: usize) -> (r: Vec<u8>)
    requires
        a <= b <= s@.len(),
    ensures
        r@ == s@.subrange(a as int, b as int),
{
    let mut r: Vec<u8> = Vec::new();
    let mut i: usize = a;
    while i < b
        invariant
            a <= i <= b,
            b <= s@.len(),
            r@ == s@.subrange(a as int, i as int),
        decreases b - i,
    {
        r.push(s[i]);
        i += 1;
        assert(r@ =~= s@.subrange(a as int, i as int));
    }
    r
}

/// The pieces of `text` between occurrences of `sep`.
pub fn split_bytes(text: &[u8], sep: u8) -> (r: Vec<Vec<u8>>)
    ensures
        views(r@) == split_on(text@, sep),
{
    let mut pieces: Vec<Vec<u8>> = Vec::new();
    let mut cur: Vec<u8> = Vec::new();
    let mut i: usize = 0;
    assert(text@.take(0) =~= Seq::<u8>::empty());
    assert(views(pieces@).push(cur@) =~= split_on(text@.take(0), sep));
    while i < text.len()
        invariant
            i <= text@.len(),
            views(pieces@).push(cur@) == split_on(text@.take(i as int), sep),
        decreases text@.len() - i,
    {
        let ghost before = views(pieces@).push(cur@);
        assert(text@.take(i + 1).drop_last() =~= text@.take(i as int));
        if text[i] == sep {
            let mut done: Vec<u8> = Vec::new();
            std::mem::swap(&mut cur, &mut done);
            pieces.push(done);
            assert(views(pieces@).push(cur@) =~= before.push(Seq::<u8>::empty()));
        } else {
            cur.push(text[i]);
            assert(views(pieces@).push(cur@) =~= before.update(
                before.len() - 1,
                before.last().push(text@[i as int]),
            ));
        }
        i += 1;
    }
    assert(text@.take(i as int) =~= text@);
    pieces.push(cur);
    assert(views(pieces@) =~= split_on(text@, sep));
    pieces
}

/// `s` without its trailing whitespace.
pub fn trim_end_bytes(s: &[u8]) -> (r: Vec<u8>)
    ensures
        r@ == trim_end(s@),
{
    let mut e: usize = s.len();
    assert(s@.take(e as int) =~= s@);
    while e > 0 && (s[e - 1] == 32 || (9 <= s[e - 1] && s[e - 1] <= 13))
        invariant
            e <= s@.len(),
            trim_end(s@.take(e as int)) == trim_end(s@),
        decreases e,
    {
        assert(s@.take(e as int).drop_last() =~= s@.take(e - 1));
        e -= 1;
    }
    assert(s@.subrange(0, e as int) =~= s@.take(e as int));
    copy_range(s, 0, e)
}

/// `s` without its leading and trailing whitespace.
pub fn trim_bytes(s: &[u8]) -> (r: Vec<u8>)
    ensures
        r@ == trim_start(trim_end(s@)),
{
    let t = trim_end_bytes(s);
    let mut a: usize = 0;
    assert(t@.subrange(0, t@.len() as int) =~= t@);
    while a < t.len() && (t[a] == 32 || (9 <= t[a] && t[a] <= 13))
        invariant
            a <= t@.len(),
            trim_start(t@.subrange(a as int, t@.len() as int)) == trim_start(t@),
        decreases t@.len() - a,
    {
        assert(t@.subrange(a as int, t@.len() as int).drop_first() =~= t@.subrange(
            a + 1,
            t@.len() as int,
        ));
        a += 1;
    }
    copy_range(t.as_slice(), a, t.len())
}

/// Reads a whitelist text: one ASCII barcode per line, trailing ASCII whitespace dropped,
/// blank lines skipped, duplicates collapsed. Returns the trie of the barcodes and the
/// barcodes, each once.
pub fn build_whitelist(text: &[u8]) -> (r: (Trie, Vec<Vec<u8>>))
    ensures
        r.0.wf(),
        r.0@ == whitelist_entries(text@),
        string_set(r.1@) == whitelist_entries(text@),
        distinct_strings(r.1@),
{
    let lines = split_bytes(text, 10);
    let mut trie = Trie::new();
    let mut list: Vec<Vec<u8>> = Vec::new();
    let ghost ls = split_on(text@, 10);
    let mut i: usize = 0;
    assert(string_set(list@) =~= Set::<Seq<u8>>::empty());
    while i < lines.len()
        invariant
            i <= lines@.len(),
            views(lines@) == ls,
            ls == split_on(text@, 10),
            trie.wf(),
            trie@ == string_set(list@),
            distinct_strings(list@),
            trie@ == Set::new(
                |w: Seq<u8>| w.len() > 0 && exists|k: int| 0 <= k < i && #[trigger] trim_end(ls[k]) == w,
            ),
        decreases lines@.len() - i,
    {
        let w = trim_end_bytes(lines[i].as_slice());
        let ghost before = trie@;
        assert(ls[i as int] == lines@[i as int]@);
        if w.len() > 0 && !trie.contains(w.as_slice()) {
            let ghost old_list = list@;
            trie.add_word(w.as_slice());
            list.push(w);
            proof {
                assert forall|x: int, y: int|
                    0 <= x < y < list@.len() implies (#[trigger] list@[x])@ != (
                    #[trigger] list@[y])@ by {
                    if y == old_list.len() {
                        assert(list@[x] == old_list[x]);
                        assert(string_set(old_list).contains(old_list[x]@));
                    } else {
                        assert(list@[x] == old_list[x] && list@[y] == old_list[y]);
                    }
                }
                assert forall|b: Seq<u8>| #[trigger] string_set(list@).contains(b) == before.insert(
                    list@[old_list.len() as int]@,
                ).contains(b) by {
                    if string_set(old_list).contains(b) {
                        let k = choose|k: int| 0 <= k < old_list.len() && #[trigger] old_list[k]@ == b;
                        assert(list@[k] == old_list[k]);
                    }
                    if string_set(list@).contains(b) {
                        let k = choose|k: int| 0 <= k < list@.len() && #[trigger] list@[k]@ == b;
                        if k < old_list.len() {
                            assert(list@[k] == old_list[k]);
                        }
                    }
                    assert(list@[old_list.len() as int]@ == list@[old_list.len() as int]@);
                }
                assert(string_set(list@) =~= trie@);
            }
        }
        proof {
            let next = Set::new(
                |w2: Seq<u8>| w2.len() > 0 && exists|k: int| 0 <= k < i + 1 && #[trigger] trim_end(ls[k]) == w2,
            );
            let grown = if w@.len() > 0 {
                before.insert(w@)
            } else {
                before
            };
            assert forall|b: Seq<u8>| #[trigger] next.contains(b) == grown.contains(b) by {
                if next.contains(b) {
                    let k = choose|k: int| 0 <= k < i + 1 && #[trigger] trim_end(ls[k]) == b;
                    if k < i {
                        assert(before.contains(b));
                    }
                }
                if before.contains(b) {
                    let k = choose|k: int| 0 <= k < i && #[trigger] trim_end(ls[k]) == b;
                    assert(0 <= k < i + 1);
                }
                if b == w@ {
                    assert(trim_end(ls[i as int]) == b);
                }
            }
            assert(trie@ =~= grown);
            assert(trie@ =~= next);
        }
        i += 1;
    }
    proof {
        assert(trie@ =~= whitelist_entries(text@));
    }
    (trie, list)
}


/// An ASCII decimal digit.
pub open spec fn is_digit(b: u8) -> bool {
    48 <= b && b <= 57
}

/// Every byte is a digit.
pub open spec fn all_digits(s: Seq<u8>) -> bool {
    forall|i: int| 0 <= i < s.len() ==> is_digit(#[trigger] s[i])
}

/// The number that the digits `s` write in base ten.
pub open spec fn decimal_value(s: Seq<u8>) -> nat
    decreases s.len(),
{
    if s.len() == 0 {
        0
    } else {
        decimal_value(s.drop_last()) * 10 + (s.last() - 48) as nat
    }
}

/// The digits of a count field: the field without one leading `+`.
pub open spec fn count_digits(f: Seq<u8>) -> Seq<u8> {
    if f.len() > 0 && f[0] == 43 {
        f.drop_first()
    } else {
        f
    }
}

/// A count field holds an optional `+` and at least one digit, and its value fits a `usize`.
pub open spec fn valid_count(f: Seq<u8>) -> bool {
    let d = count_digits(f);
    d.len() > 0 && all_digits(d) && decimal_value(d) <= usize::MAX
}

proof fn lemma_decimal_mono(s: Seq<u8>, j: int)
    requires
        0 <= j <= s.len(),
        all_digits(s),
    ensures
        decimal_value(s.take(j)) <= decimal_value(s),
    decreases s.len() - j,
{
    if j < s.len() {
        assert(s.take(j + 1).drop_last() =~= s.take(j));
        assert(all_digits(s.take(j + 1)));
        lemma_decimal_mono(s, j + 1);
    } else {
        assert(s.take(j) =~= s);
    }
}

/// The value of a count field, or `None` where it is not a valid count.
pub fn parse_count(f: &[u8]) -> (r: Option<usize>)
    ensures
        r is Some <==> valid_count(f@),
        r is Some ==> r->0 == decimal_value(count_digits(f@)),
{
    let start: usize = if f.len() > 0 && f[0] == 43 { 1 } else { 0 };
    let ghost d = count_digits(f@);
    assert(d =~= f@.subrange(start as int, f@.len() as int));
    if start >= f.len() {
        return None;
    }
    let mut v: usize = 0;
    let mut i: usize = start;
    assert(d.take(0) =~= Seq::<u8>::empty());
    while i < f.len()
        invariant
            start <= i <= f@.len(),
            d == count_digits(f@),
            d =~= f@.subrange(start as int, f@.len() as int),
            all_digits(d.take(i - start)),
            v == decimal_value(d.take(i - start)),
        decreases f@.len() - i,
    {
        let b = f[i];
        let ghost j = i - start;
        assert(d[j] == b);
        if b < 48 || b > 57 {
            assert(!is_digit(d[j]));
            return None;
        }
        let digit = (b - 48) as usize;
        assert(d.take(j + 1).drop_last() =~= d.take(j));
        if v > (usize::MAX - digit) / 10 {
            proof {
                assert(v * 10 + digit > usize::MAX) by (nonlinear_arith)
                    requires
                        v > (usize::MAX - digit) / 10,
                        digit <= 9,
                ;
                assert(d.take(j + 1).last() == b);
                assert(decimal_value(d.take(j + 1)) == v * 10 + digit);
                if all_digits(d) {
                    lemma_decimal_mono(d, j + 1);
                }
            }
            return None;
        }
        assert(v * 10 + digit <= usize::MAX) by (nonlinear_arith)
            requires
                v <= (usize::MAX - digit) / 10,
                digit <= 9,
        ;
        v = v * 10 + digit;
        i += 1;
        assert(all_digits(d.take(i - start)));
    }
    assert(d.take(i - start) =~= d);
    Some(v)
}

/// A line of the count table is well formed: a count in its second tab-separated field.
pub open spec fn count_line_ok(line: Seq<u8>) -> bool {
    let f = split_on(line, 9);
    f.len() >= 2 && valid_count(f[1])
}

/// The lines of a count table text, after whitespace is trimmed from both ends; a text with
/// nothing but whitespace has no lines.
pub open spec fn count_lines(text: Seq<u8>) -> Seq<Seq<u8>> {
    let t = trim_start(trim_end(text));
    if t.len() == 0 {
        Seq::<Seq<u8>>::empty()
    } else {
        split_on(t, 10)
    }
}

/// Reads one line of the count table: the barcode in the first tab-separated field, the count
/// in the second; further fields are ignored.
pub fn parse_count_line(line: &[u8]) -> (r: Result<(Vec<u8>, usize), SetupError>)
    ensures
        r is Ok <==> count_line_ok(line@),
        match r {
            Ok(p) => p.0@ == split_on(line@, 9)[0] && p.1 == decimal_value(
                count_digits(split_on(line@, 9)[1]),
            ),
            Err(e) => e == SetupError::MalformedCountLine,
        },
{
    let mut fields = split_bytes(line, 9);
    if fields.len() < 2 {
        return Err(SetupError::MalformedCountLine);
    }
    assert(fields@[1]@ == split_on(line@, 9)[1]);
    match parse_count(fields[1].as_slice()) {
        None => Err(SetupError::MalformedCountLine),
        Some(c) => {
            let barcode = fields.swap_remove(0);
            assert(barcode@ == split_on(line@, 9)[0]);
            Ok((barcode, c))
        },
    }
}

/// Reads a count table text: after trimming ASCII whitespace, one `<barcode>\t<count>` record per line; an
/// empty text has no records. Fails on the first malformed line.
pub fn parse_counts(text: &[u8]) -> (r: Result<Vec<(Vec<u8>, usize)>, SetupError>)
    ensures
        r is Ok <==> forall|i: int|
            0 <= i < count_lines(text@).len() ==> count_line_ok(#[trigger] count_lines(text@)[i]),
        match r {
            Ok(v) => v@.len() == count_lines(text@).len() && forall|i: int|
                0 <= i < v@.len() ==> (#[trigger] v@[i]).0@ == split_on(count_lines(text@)[i], 9)[0]
                    && v@[i].1 == decimal_value(count_digits(split_on(count_lines(text@)[i], 9)[1])),
            Err(e) => e == SetupError::MalformedCountLine,
        },
{
    let trimmed = trim_bytes(text);
    if trimmed.len() == 0 {
        return Ok(Vec::new());
    }
    let lines = split_bytes(trimmed.as_slice(), 10);
    let ghost ls = count_lines(text@);
    let mut out: Vec<(Vec<u8>, usize)> = Vec::new();
    let mut i: usize = 0;
    while i < lines.len()
        invariant
            i <= lines@.len(),
            views(lines@) == ls,
            ls == count_lines(text@),
            out@.len() == i,
            forall|k: int| 0 <= k < i ==> count_line_ok(#[trigger] ls[k]),
            forall|k: int|
                0 <= k < i ==> (#[trigger] out@[k]).0@ == split_on(ls[k], 9)[0] && out@[k].1
                    == decimal_value(count_digits(split_on(ls[k], 9)[1])),
        decreases lines@.len() - i,
    {
        assert(ls[i as int] == lines@[i as int]@);
        match parse_count_line(lines[i].as_slice()) {
            Ok(p) => {
                out.push(p);
            },
            Err(e) => {
                return Err(e);
            },
        }
        i += 1;
    }
    Ok(out)
}

} // verus!
