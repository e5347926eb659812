//! Line splitting, `key=value` separation and unsigned decimal numbers over
//! raw bytes.
use vstd::prelude::*;

verus! {

/// Byte of the line terminator `\n`.
pub const NEWLINE: u8 = 10;

/// Byte of the key/value separator `=`.
pub const SEPARATOR: u8 = 61;

/// Byte of the optional leading sign `+` of a number.
pub const PLUS: u8 = 43;

/// Byte of the digit `0`.
pub const DIGIT_ZERO: u8 = 48;

/// Byte of the digit `9`.
pub const DIGIT_NINE: u8 = 57;

/// The lines of `t`, cut at every newline. The newlines themselves are
/// dropped; text ending in a newline has an empty last line, and the empty
/// text has one empty line.
pub open spec fn split_lines_spec(t: Seq<u8>) -> Seq<Seq<u8>>
    decreases t.len(),
{
    if t.len() == 0 {
        seq![Seq::empty()]
    } else {
        let prev = split_lines_spec(t.drop_last());
        if t.last() == NEWLINE {
            prev.push(Seq::empty())
        } else {
            prev.update(prev.len() - 1, prev.last().push(t.last()))
        }
    }
}

/// The byte contents of a sequence of vectors.
pub open spec fn views_of(v: Seq<Vec<u8>>) -> Seq<Seq<u8>> {
    v.map_values(|l: Vec<u8>| l@)
}

proof fn lemma_split_lines_nonempty(t: Seq<u8>)
    ensures
        split_lines_spec(t).len() >= 1,
    decreases t.len(),
{
    if t.len() > 0 {
        lemma_split_lines_nonempty(t.drop_last());
    }
}

/// Text without a newline is a single line.
pub proof fn lemma_split_single_line(a: Seq<u8>)
    requires
        forall|i: int| 0 <= i < a.len() ==> a[i] != NEWLINE,
    ensures
        split_lines_spec(a) == seq![a],
    decreases a.len(),
{
    if a.len() > 0 {
        let p = a.drop_last();
        assert forall|i: int| 0 <= i < p.len() implies p[i] != NEWLINE by {
            assert(p[i] == a[i]);
        }
        lemma_split_single_line(p);
        assert(p.push(a.last()) =~= a);
        assert(seq![p].update(0, p.push(a.last())) =~= seq![a]);
    } else {
        assert(a =~= Seq::<u8>::empty());
    }
}

/// The lines of two texts joined by a newline are the lines of the first
/// followed by those of the second.
pub proof fn lemma_split_join(a: Seq<u8>, b: Seq<u8>)
    ensures
        split_lines_spec(a + seq![NEWLINE] + b) == split_lines_spec(a) + split_lines_spec(b),
    decreases b.len(),
{
    let t = a + seq![NEWLINE] + b;
    if b.len() == 0 {
        assert(t.drop_last() =~= a);
        assert(split_lines_spec(a).push(Seq::empty()) =~= split_lines_spec(a) + split_lines_spec(b));
    } else {
        let p = b.drop_last();
        lemma_split_join(a, p);
        lemma_split_lines_nonempty(p);
        assert(t.drop_last() =~= a + seq![NEWLINE] + p);
        assert(t.last() == b.last());
        let sa = split_lines_spec(a);
        let sp = split_lines_spec(p);
        if b.last() == NEWLINE {
            assert((sa + sp).push(Seq::empty()) =~= sa + sp.push(Seq::empty()));
        } else {
            let joined = sa + sp;
            assert(joined.update(joined.len() - 1, joined.last().push(b.last())) =~= sa + sp.update(
                sp.len() - 1,
                sp.last().push(b.last()),
            ));
        }
    }
}

/// The first separator is the one at `k`.
pub proof fn lemma_separator_at(l: Seq<u8>, k: int)
    requires
        is_first_separator(l, k),
    ensures
        has_separator(l),
        separator_index(l) == k,
        key_spec(l) == l.take(k),
        value_spec(l) == l.skip(k + 1),
{
    let c = separator_index(l);
    assert(is_first_separator(l, c));
    if c < k {
    } else if c > k {
    }
}

/// Cuts `text` into its lines.
pub fn split_lines(text: &[u8]) -> (r: Vec<Vec<u8>>)
    ensures
        views_of(r@) == split_lines_spec(text@),
{
    let mut lines: Vec<Vec<u8>> = Vec::new();
    let mut cur: Vec<u8> = Vec::new();
    let mut i: usize = 0;
    assert(text@.take(0) =~= Seq::<u8>::empty());
    while i < text.len()
        invariant
            0 <= i <= text@.len(),
            views_of(lines@).push(cur@) =~= split_lines_spec(text@.take(i as int)),
        decreases text@.len() - i,
    {
        let b = text[i];
        assert(text@.take(i + 1).drop_last() =~= text@.take(i as int));
        let ghost before = views_of(lines@);
        let ghost cur_before = cur@;
        if b == NEWLINE {
            lines.push(cur);
            cur = Vec::new();
            assert(views_of(lines@) =~= before.push(cur_before));
        } else {
            cur.push(b);
        }
        i = i + 1;
    }
    assert(text@.take(i as int) =~= text@);
    lines.push(cur);
    assert(views_of(lines@) =~= split_lines_spec(text@));
    lines
}

/// `k` is the position of the first separator in `l`.
pub open spec fn is_first_separator(l: Seq<u8>, k: int) -> bool {
    0 <= k < l.len() && l[k] == SEPARATOR && forall|j: int| 0 <= j < k ==> l[j] != SEPARATOR
}

/// `l` holds at least one separator.
pub open spec fn has_separator(l: Seq<u8>) -> bool {
    exists|k: int| 0 <= k < l.len() && l[k] == SEPARATOR
}

/// The position of the first separator in `l`, where there is one.
pub open spec fn separator_index(l: Seq<u8>) -> int {
    choose|k: int| is_first_separator(l, k)
}

/// The part of a line before its first separator.
pub open spec fn key_spec(l: Seq<u8>) -> Seq<u8> {
    l.take(separator_index(l))
}

/// The part of a line after its first separator.
pub open spec fn value_spec(l: Seq<u8>) -> Seq<u8> {
    l.skip(separator_index(l) + 1)
}

/// Finds the first separator of `line`.
pub fn find_separator(line: &[u8]) -> (r: Option<usize>)
    ensures
        r is None <==> !has_separator(line@),
        r matches Some(k) ==> k == separator_index(line@) && is_first_separator(line@, k as int),
{
    let mut i: usize = 0;
    while i < line.len()
        invariant
            0 <= i <= line@.len(),
            forall|j: int| 0 <= j < i ==> line@[j] != SEPARATOR,
        decreases line@.len() - i,
    {
        if line[i] == SEPARATOR {
            assert(is_first_separator(line@, i as int));
            let ghost k = separator_index(line@);
            assert(k == i) by {
                assert(is_first_separator(line@, k));
                if k < i {
                } else if k > i {
                }
            }
            return Some(i);
        }
        i = i + 1;
    }
    None
}

/// Copies the bytes of `s` from `from` up to `to`.
pub fn copy_range(s: &[u8], from: usize, to: usize) -> (r: Vec<u8>)
    requires
        from <= to <= s@.len(),
    ensures
        r@ == s@.subrange(from as int, to as int),
{
    let mut r: Vec<u8> = Vec::new();
    let mut i: usize = from;
    while i < to
        invariant
            from <= i <= to <= s@.len(),
            r@ =~= s@.subrange(from as int, i as int),
        decreases to - i,
    {
        r.push(s[i]);
        i = i + 1;
    }
    r
}

/// Splits a line at its first separator into key and value.
pub fn split_pair(line: &[u8]) -> (r: Option<(Vec<u8>, Vec<u8>)>)
    ensures
        r is None <==> !has_separator(line@),
        r matches Some(p) ==> p.0@ == key_spec(line@) && p.1@ == value_spec(line@),
{
    match find_separator(line) {
        None => None,
        Some(k) => {
            let n = line.len();
            assert(k < n);
            let key = copy_range(line, 0, k);
            let value = copy_range(line, k + 1, n);
            Some((key, value))
        }
    }
}

/// `b` is an ASCII decimal digit.
pub open spec fn is_digit(b: u8) -> bool {
    DIGIT_ZERO <= b <= DIGIT_NINE
}

/// `s` is made of decimal digits only.
pub open spec fn all_digits(s: Seq<u8>) -> bool {
    forall|i: int| 0 <= i < s.len() ==> is_digit(#[trigger] s[i])
}

/// The number that the decimal digits `s` spell, most significant first.
pub open spec fn digits_value(s: Seq<u8>) -> nat
    decreases s.len(),
{
    if s.len() == 0 {
        0
    } else {
        digits_value(s.drop_last()) * 10 + (s.last() - DIGIT_ZERO) as nat
    }
}

/// The digits of a number written with an optional leading `+`.
pub open spec fn unsigned_digits(s: Seq<u8>) -> Seq<u8> {
    if s.len() > 0 && s[0] == PLUS {
        s.skip(1)
    } else {
        s
    }
}

/// The 32-bit unsigned number that `s` writes in decimal: an optional `+`,
/// then at least one digit and nothing else, of a value that fits.
pub open spec fn parse_u32_spec(s: Seq<u8>) -> Option<u32> {
    let d = unsigned_digits(s);
    if d.len() > 0 && all_digits(d) && digits_value(d) <= u32::MAX {
        Some(digits_value(d) as u32)
    } else {
        None
    }
}

/// A digit string is worth at least as much as any of its prefixes.
proof fn lemma_digits_value_prefix(d: Seq<u8>, k: int)
    requires
        0 <= k <= d.len(),
        all_digits(d),
    ensures
        digits_value(d.take(k)) <= digits_value(d),
    decreases d.len(),
{
    if k < d.len() {
        let p = d.drop_last();
        assert(p.take(k) =~= d.take(k));
        assert(all_digits(p)) by {
            assert forall|i: int| 0 <= i < p.len() implies is_digit(#[trigger] p[i]) by {
                assert(p[i] == d[i]);
            }
        }
        lemma_digits_value_prefix(p, k);
    } else {
        assert(d.take(k) =~= d);
    }
}

/// Reads an unsigned 32-bit decimal number, as `str::parse::<u32>` does.
pub fn parse_u32(s: &[u8]) -> (r: Option<u32>)
    ensures
        r == parse_u32_spec(s@),
{
    let start: usize = if s.len() > 0 && s[0] == PLUS { 1 } else { 0 };
    let ghost d = unsigned_digits(s@);
    assert(d =~= s@.subrange(start as int, s@.len() as int));
    if start == s.len() {
        return None;
    }
    let mut acc: u64 = 0;
    let mut i: usize = start;
    assert(d.take(0) =~= Seq::<u8>::empty());
    while i < s.len()
        invariant
            start <= i <= s@.len(),
            d == s@.subrange(start as int, s@.len() as int),
            d == unsigned_digits(s@),
            acc <= u32::MAX,
            acc == digits_value(d.take(i - start)),
            all_digits(d.take(i - start)),
        decreases s@.len() - i,
    {
        let b = s[i];
        let ghost n = i - start;
        assert(d.take(n + 1).drop_last() =~= d.take(n));
        assert(d.take(n + 1).last() == b);
        if b < DIGIT_ZERO || b > DIGIT_NINE {
            assert(!all_digits(d)) by {
                assert(d[n] == b);
                assert(!is_digit(d[n]));
            }
            return None;
        }
        acc = acc * 10 + (b - DIGIT_ZERO) as u64;
        assert(all_digits(d.take(n + 1))) by {
            assert forall|j: int| 0 <= j < n + 1 implies is_digit(#[trigger] d.take(n + 1)[j]) by {
                if j < n {
                    assert(d.take(n + 1)[j] == d.take(n)[j]);
                }
            }
        }
        assert(acc == digits_value(d.take(n + 1)));
        if acc > u32::MAX as u64 {
            proof {
                if all_digits(d) {
                    lemma_digits_value_prefix(d, n + 1);
                }
            }
            return None;
        }
        i = i + 1;
    }
    assert(d.take(s@.len() - start) =~= d);
    Some(acc as u32)
}

} // verus!
