//! Byte-sequence helpers shared by the codecs: searching, splitting, joining
//! and decimal numbers, each with its mathematical model.
use vstd::prelude::*;

verus! {

/// Index of the first occurrence of `c` in `s`, or -1 when there is none.
pub open spec fn first_index(s: Seq<u8>, c: u8) -> int
    decreases s.len(),
{
    if s.len() == 0 {
        -1
    } else if s[0] == c {
        0
    } else {
        let k = first_index(s.drop_first(), c);
        if k < 0 { -1 } else { k + 1 }
    }
}

pub open spec fn lacks(s: Seq<u8>, c: u8) -> bool {
    forall|i: int| 0 <= i < s.len() ==> s[i] != c
}

pub proof fn lemma_first_index_bounds(s: Seq<u8>, c: u8)
    ensures
        -1 <= first_index(s, c) < s.len(),
        first_index(s, c) >= 0 ==> s[first_index(s, c)] == c,
        first_index(s, c) >= 0 ==> lacks(s.subrange(0, first_index(s, c)), c),
        first_index(s, c) < 0 ==> lacks(s, c),
    decreases s.len(),
{
    if s.len() > 0 && s[0] != c {
        lemma_first_index_bounds(s.drop_first(), c);
        let k = first_index(s.drop_first(), c);
        if k >= 0 {
            assert forall|i: int| 0 <= i < k + 1 implies #[trigger] s.subrange(0, k + 1)[i] != c by {
                if i > 0 {
                    assert(s.subrange(0, k + 1)[i] == s.drop_first().subrange(0, k)[i - 1]);
                }
            }
        } else {
            assert forall|i: int| 0 <= i < s.len() implies #[trigger] s[i] != c by {
                if i > 0 {
                    assert(s[i] == s.drop_first()[i - 1]);
                }
            }
        }
    }
}

/// The first occurrence of `c` in `a + b`, where `a` holds no `c`, lies in `b`.
pub proof fn lemma_first_index_after(a: Seq<u8>, b: Seq<u8>, c: u8)
    requires
        lacks(a, c),
    ensures
        first_index(a + b, c) == if first_index(b, c) < 0 { -1 } else { a.len() + first_index(b, c) },
    decreases a.len(),
{
    if a.len() == 0 {
        assert(a + b =~= b);
    } else {
        assert((a + b).drop_first() =~= a.drop_first() + b);
        lemma_first_index_after(a.drop_first(), b, c);
    }
}

/// Scans `s[start..]` for `c`; the result is the first index found.
pub fn find_byte(s: &[u8], start: usize, c: u8) -> (r: Option<usize>)
    requires
        start <= s@.len(),
    ensures
        s@.len() <= usize::MAX,
        match r {
            Some(k) => start <= k < s@.len() && first_index(s@.subrange(start as int, s@.len() as int), c)
                == k - start,
            None => first_index(s@.subrange(start as int, s@.len() as int), c) < 0,
        },
{
    let n = s.len();
    let mut i: usize = start;
    while i < s.len()
        invariant
            start <= i <= s@.len(),
            lacks(s@.subrange(start as int, i as int), c),
        decreases s@.len() - i,
    {
        if s[i] == c {
            proof {
                let a = s@.subrange(start as int, i as int);
                let b = s@.subrange(i as int, s@.len() as int);
                assert(s@.subrange(start as int, s@.len() as int) =~= a + b);
                lemma_first_index_after(a, b, c);
            }
            return Some(i);
        }
        assert(s@.subrange(start as int, i + 1) =~= s@.subrange(start as int, i as int).push(s@[i as int]));
        i = i + 1;
    }
    proof {
        let a = s@.subrange(start as int, i as int);
        assert(s@.subrange(start as int, s@.len() as int) =~= a + Seq::<u8>::empty());
        lemma_first_index_after(a, Seq::<u8>::empty(), c);
    }
    None
}


/// Appends `s` to `out`.
pub fn append_bytes(out: &mut Vec<u8>, s: &[u8])
    ensures
        final(out)@ == old(out)@ + s@,
{
    let mut i: usize = 0;
    while i < s.len()
        invariant
            0 <= i <= s@.len(),
            out@ == old(out)@ + s@.subrange(0, i as int),
        decreases s@.len() - i,
    {
        out.push(s[i]);
        assert(s@.subrange(0, i + 1) =~= s@.subrange(0, i as int).push(s@[i as int]));
        i = i + 1;
    }
    assert(s@.subrange(0, i as int) =~= s@);
}

/// A fresh vector holding `s[start..end]`.
pub fn copy_range(s: &[u8], start: usize, end: usize) -> (r: Vec<u8>)
    requires
        start <= end <= s@.len(),
    ensures
        r@ == s@.subrange(start as int, end as int),
{
    let mut r: Vec<u8> = Vec::new();
    append_bytes(&mut r, &s[start..end]);
    r
}

/// `p` is a prefix of `s`.
pub open spec fn has_prefix(s: Seq<u8>, p: Seq<u8>) -> bool {
    p.len() <= s.len() && s.subrange(0, p.len() as int) == p
}

pub fn starts_with(s: &[u8], p: &[u8]) -> (r: bool)
    ensures
        r == has_prefix(s@, p@),
{
    if p.len() > s.len() {
        return false;
    }
    let mut i: usize = 0;
    while i < p.len()
        invariant
            p@.len() <= s@.len(),
            0 <= i <= p@.len(),
            forall|j: int| 0 <= j < i ==> s@[j] == p@[j],
        decreases p@.len() - i,
    {
        if s[i] != p[i] {
            assert(s@.subrange(0, p@.len() as int)[i as int] != p@[i as int]);
            return false;
        }
        i = i + 1;
    }
    assert(s@.subrange(0, p@.len() as int) =~= p@);
    true
}

/// Splits `s` at every `c`; the result has one more part than `s` has `c`s.
pub open spec fn split_on(s: Seq<u8>, c: u8) -> Seq<Seq<u8>>
    decreases s.len(),
{
    let k = first_index(s, c);
    if k < 0 {
        seq![s]
    } else {
        if 0 <= k < s.len() {
            seq![s.subrange(0, k)] + split_on(s.subrange(k + 1, s.len() as int), c)
        } else {
            seq![s]
        }
    }
}

/// Writes the parts one after another with `c` between each two.
pub open spec fn join_with(parts: Seq<Seq<u8>>, c: u8) -> Seq<u8>
    decreases parts.len(),
{
    if parts.len() == 0 {
        Seq::empty()
    } else if parts.len() == 1 {
        parts[0]
    } else {
        parts[0] + seq![c] + join_with(parts.drop_first(), c)
    }
}

/// Splitting undoes joining when no part holds the separator.
pub proof fn lemma_split_join(parts: Seq<Seq<u8>>, c: u8)
    requires
        parts.len() >= 1,
        forall|i: int| 0 <= i < parts.len() ==> lacks(#[trigger] parts[i], c),
    ensures
        split_on(join_with(parts, c), c) == parts,
    decreases parts.len(),
{
    let s = join_with(parts, c);
    if parts.len() == 1 {
        lemma_first_index_bounds(parts[0], c);
        assert(split_on(s, c) =~= parts);
    } else {
        let rest = parts.drop_first();
        assert(lacks(parts[0], c));
        assert forall|i: int| 0 <= i < rest.len() implies lacks(#[trigger] rest[i], c) by {
            assert(rest[i] == parts[i + 1]);
        }
        let tail = seq![c] + join_with(rest, c);
        assert(s =~= parts[0] + tail);
        lemma_first_index_after(parts[0], tail, c);
        assert(first_index(tail, c) == 0);
        assert(s.subrange(0, parts[0].len() as int) =~= parts[0]);
        assert(s.subrange(parts[0].len() + 1 as int, s.len() as int) =~= join_with(rest, c));
        lemma_split_join(rest, c);
        assert(split_on(s, c) =~= parts);
    }
}

/// The byte sequences that a list of vectors holds.
pub open spec fn views(v: Seq<Vec<u8>>) -> Seq<Seq<u8>> {
    v.map_values(|x: Vec<u8>| x@)
}

/// Exec counterpart of `split_on`.
pub fn split_bytes(s: &[u8], c: u8) -> (r: Vec<Vec<u8>>)
    ensures
        views(r@) == split_on(s@, c),
{
    let mut r: Vec<Vec<u8>> = Vec::new();
    let mut pos: usize = 0;
    assert(views(r@) =~= Seq::<Seq<u8>>::empty());
    assert(s@.subrange(0, s@.len() as int) =~= s@);
    loop
        invariant
            pos <= s@.len(),
            split_on(s@, c) == views(r@) + split_on(s@.subrange(pos as int, s@.len() as int), c),
        decreases s@.len() - pos,
    {
        let ghost rest = s@.subrange(pos as int, s@.len() as int);
        match find_byte(s, pos, c) {
            Some(k) => {
                let n = s.len();
                assert(k < n);
                let part = copy_range(s, pos, k);
                proof {
                    assert(rest.subrange(0, k - pos) =~= part@);
                    assert(rest.subrange(k - pos + 1, rest.len() as int) =~= s@.subrange(k + 1, s@.len() as int));
                    assert(split_on(rest, c) =~= seq![part@] + split_on(s@.subrange(k + 1, s@.len() as int), c));
                }
                let ghost before = r@;
                r.push(part);
                assert(views(r@) =~= views(before).push(part@));
                assert(split_on(s@, c) =~= views(r@) + split_on(s@.subrange(k + 1, s@.len() as int), c));
                pos = k + 1;
            },
            None => {
                let part = copy_range(s, pos, s.len());
                let ghost before = r@;
                r.push(part);
                assert(views(r@) =~= views(before).push(part@));
                assert(split_on(rest, c) =~= seq![part@]);
                assert(split_on(s@, c) =~= views(r@));
                return r;
            },
        }
    }
}


pub open spec fn is_digit(b: u8) -> bool {
    48 <= b <= 57
}

pub open spec fn all_digits(s: Seq<u8>) -> bool {
    forall|i: int| 0 <= i < s.len() ==> is_digit(#[trigger] s[i])
}

/// The decimal digits of `n`, most significant first, with no leading zero.
pub open spec fn decimal(n: nat) -> Seq<u8>
    decreases n,
{
    if n < 10 {
        seq![(48 + n) as u8]
    } else {
        decimal(n / 10).push((48 + n % 10) as u8)
    }
}

/// The number that a string of decimal digits writes.
pub open spec fn digits_value(s: Seq<u8>) -> nat
    decreases s.len(),
{
    if s.len() == 0 {
        0
    } else {
        digits_value(s.drop_last()) * 10 + (s.last() - 48) as nat
    }
}

/// What a decimal field holds: some digits, and a value that fits in 64 bits.
pub open spec fn decimal_value(s: Seq<u8>) -> Option<nat> {
    if s.len() > 0 && all_digits(s) && digits_value(s) <= u64::MAX {
        Some(digits_value(s))
    } else {
        None
    }
}

/// Appends the decimal digits of `n` to `out`.
pub fn push_decimal(out: &mut Vec<u8>, n: u64)
    ensures
        final(out)@ == old(out)@ + decimal(n as nat),
    decreases n,
{
    if n >= 10 {
        push_decimal(out, n / 10);
    }
    out.push((48 + n % 10) as u8);
    assert(decimal(n as nat) =~= if n < 10 { seq![(48 + n) as u8] } else { decimal((n / 10) as nat).push((48 + n % 10) as u8) });
}

proof fn lemma_digits_value_grows(s: Seq<u8>, i: int)
    requires
        0 <= i <= s.len(),
        all_digits(s),
    ensures
        digits_value(s.subrange(0, i)) <= digits_value(s),
    decreases s.len() - i,
{
    if i < s.len() {
        lemma_digits_value_grows(s, i + 1);
        let t = s.subrange(0, i + 1);
        assert(t.drop_last() =~= s.subrange(0, i));
        assert(digits_value(t) == digits_value(s.subrange(0, i)) * 10 + (t.last() - 48) as nat);
    } else {
        assert(s.subrange(0, i) =~= s);
    }
}

/// Reads a decimal field; the result is `decimal_value(s@)`.
pub fn parse_decimal(s: &[u8]) -> (r: Option<u64>)
    ensures
        match r {
            Some(v) => decimal_value(s@) == Some(v as nat),
            None => decimal_value(s@) is None,
        },
{
    if s.len() == 0 {
        return None;
    }
    let mut v: u64 = 0;
    let mut i: usize = 0;
    while i < s.len()
        invariant
            0 <= i <= s@.len(),
            all_digits(s@.subrange(0, i as int)),
            v as nat == digits_value(s@.subrange(0, i as int)),
        decreases s@.len() - i,
    {
        let d = s[i];
        let t = Ghost(s@.subrange(0, i + 1));
        assert(t@.drop_last() =~= s@.subrange(0, i as int));
        if d < 48 || d > 57 {
            assert(!is_digit(s@[i as int]));
            return None;
        }
        let dv: u64 = (d - 48) as u64;
        if v > (u64::MAX - dv) / 10 {
            proof {
                assert(v * 10 + dv > u64::MAX) by (nonlinear_arith)
                    requires
                        v > (u64::MAX - dv) / 10,
                        dv <= 9,
                ;
                assert(all_digits(t@));
                if all_digits(s@) {
                    lemma_digits_value_grows(s@, i + 1);
                }
            }
            return None;
        }
        assert(v * 10 + dv <= u64::MAX) by (nonlinear_arith)
            requires
                v <= (u64::MAX - dv) / 10,
                dv <= 9,
        ;
        v = v * 10 + dv;
        i = i + 1;
    }
    assert(s@.subrange(0, i as int) =~= s@);
    Some(v)
}

/// ASCII lower case of a byte.
pub open spec fn lower(b: u8) -> u8 {
    if 65 <= b <= 90 { (b + 32) as u8 } else { b }
}

/// `a` and `b` are equal but for the case of ASCII letters.
pub open spec fn eq_ignore_case(a: Seq<u8>, b: Seq<u8>) -> bool {
    a.len() == b.len() && forall|i: int| 0 <= i < a.len() ==> lower(#[trigger] a[i]) == lower(b[i])
}

fn lower_byte(b: u8) -> (r: u8)
    ensures
        r == lower(b),
{
    if 65 <= b && b <= 90 { b + 32 } else { b }
}

pub fn equals_ignore_case(a: &[u8], b: &[u8]) -> (r: bool)
    ensures
        r == eq_ignore_case(a@, b@),
{
    if a.len() != b.len() {
        return false;
    }
    let mut i: usize = 0;
    while i < a.len()
        invariant
            a@.len() == b@.len(),
            0 <= i <= a@.len(),
            forall|j: int| 0 <= j < i ==> lower(#[trigger] a@[j]) == lower(b@[j]),
        decreases a@.len() - i,
    {
        if lower_byte(a[i]) != lower_byte(b[i]) {
            return false;
        }
        i = i + 1;
    }
    true
}

/// Whether two byte strings are equal.
pub fn bytes_eq(a: &[u8], b: &[u8]) -> (r: bool)
    ensures
        r == (a@ == b@),
{
    if a.len() != b.len() {
        return false;
    }
    let r = starts_with(a, b);
    proof {
        if r {
            assert(a@ =~= a@.subrange(0, b@.len() as int));
        } else {
            if a@ == b@ {
                assert(a@.subrange(0, b@.len() as int) =~= a@);
            }
        }
    }
    r
}

/// The bytes of an ASCII text, one per character.
pub open spec fn ascii(s: Seq<char>) -> Seq<u8> {
    s.map_values(|c: char| c as u8)
}

/// The bytes of an ASCII string literal.
pub fn text(s: &str) -> (r: Vec<u8>)
    requires
        s.is_ascii(),
    ensures
        r@ == ascii(s@),
{
    broadcast use vstd::string::is_ascii_spec_bytes;
    let b = s.as_bytes();
    let r = copy_range(b, 0, b.len());
    assert(r@ =~= ascii(s@));
    r
}

/// Joining one more part adds the separator and the part.
pub proof fn lemma_join_push(parts: Seq<Seq<u8>>, last: Seq<u8>, c: u8)
    ensures
        parts.len() > 0 ==> join_with(parts.push(last), c) == join_with(parts, c) + seq![c] + last,
        parts.len() == 0 ==> join_with(parts.push(last), c) == last,
    decreases parts.len(),
{
    if parts.len() == 0 {
        assert(parts.push(last)[0] == last);
    } else if parts.len() == 1 {
        assert(parts.push(last).drop_first() =~= seq![last]);
        assert(join_with(seq![last], c) == last);
        assert(parts.push(last)[0] == parts[0]);
    } else {
        lemma_join_push(parts.drop_first(), last, c);
        assert(parts.push(last).drop_first() =~= parts.drop_first().push(last));
        assert(join_with(parts.push(last), c) =~= join_with(parts, c) + seq![c] + last);
    }
}

/// A split has at least one part.
pub proof fn lemma_split_nonempty(s: Seq<u8>, c: u8)
    ensures
        split_on(s, c).len() >= 1,
{
    assert(split_on(s, c).len() >= 1);
}

/// The decimal digits of `n` read back as `n`.
pub proof fn lemma_decimal_value(n: nat)
    ensures
        decimal(n).len() > 0,
        all_digits(decimal(n)),
        digits_value(decimal(n)) == n,
    decreases n,
{
    if n >= 10 {
        lemma_decimal_value(n / 10);
        let d = decimal(n);
        assert(d.drop_last() =~= decimal(n / 10));
        assert(d.last() == (48 + n % 10) as u8);
        assert((d.last() - 48) as nat == n % 10);
        assert(digits_value(d) == digits_value(decimal(n / 10)) * 10 + (d.last() - 48) as nat);
        assert((n / 10) * 10 + n % 10 == n) by (nonlinear_arith);
        assert forall|i: int| 0 <= i < d.len() implies is_digit(#[trigger] d[i]) by {
            if i < d.len() - 1 {
                assert(d[i] == decimal(n / 10)[i]);
            }
        }
    } else {
        let d = decimal(n);
        assert(d.drop_last() =~= Seq::<u8>::empty());
        assert(digits_value(d) == digits_value(d.drop_last()) * 10 + (d.last() - 48) as nat);
    }
}

/// Digits hold no byte outside `0`..`9`.
pub proof fn lemma_digits_lack(s: Seq<u8>, c: u8)
    requires
        all_digits(s),
        !is_digit(c),
    ensures
        lacks(s, c),
{
    assert forall|i: int| 0 <= i < s.len() implies #[trigger] s[i] != c by {
        assert(is_digit(s[i]));
    }
}

} // verus!
