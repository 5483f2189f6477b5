//! The cookie codec: reading the `Cookie` request header, and writing and
//! reading `Set-Cookie` lines with their security attributes.
use vstd::prelude::*;
use crate::bytes::{
    append_bytes, ascii, bytes_eq, copy_range, decimal, decimal_value, eq_ignore_case,
    equals_ignore_case, find_byte, first_index, join_with, lacks, lemma_decimal_value,
    lemma_digits_lack, lemma_first_index_after, lemma_join_push, lemma_split_join,
    lemma_split_nonempty, starts_with, parse_decimal, push_decimal, split_bytes, split_on, text, views,
};
use crate::http::{pair_views, HttpError, Pair};
use crate::wire::{PairView, EQUALS, SP};

verus! {

pub const SEMICOLON: u8 = 59;

/// The `SameSite` policy of a cookie.
#[derive(Debug, Clone, Copy, PartialEq, Eq, Structural)]
pub enum SameSite {
    Strict,
    Lax,
    Unrestricted,
}

/// The attributes written after a cookie's name and value.
#[derive(Debug, Clone, Copy, PartialEq, Eq, Structural)]
pub struct CookieAttributes {
    pub same_site: Option<SameSite>,
    pub secure: bool,
    pub partitioned: bool,
    /// Lifetime in seconds.
    pub max_age: Option<u64>,
}

impl CookieAttributes {
    /// No attribute set.
    pub fn none() -> (r: CookieAttributes)
        ensures
            r == no_attributes(),
    {
        CookieAttributes { same_site: None, secure: false, partitioned: false, max_age: None }
    }
}

pub open spec fn no_attributes() -> CookieAttributes {
    CookieAttributes { same_site: None, secure: false, partitioned: false, max_age: None }
}

/// A cookie as a `Set-Cookie` line carries it.
#[derive(Debug, Clone, PartialEq, Eq)]
pub struct SetCookie {
    pub name: Vec<u8>,
    pub value: Vec<u8>,
    pub attributes: CookieAttributes,
}

pub open spec fn same_site_token(s: SameSite) -> Seq<u8> {
    match s {
        SameSite::Strict => ascii("Strict"@),
        SameSite::Lax => ascii("Lax"@),
        SameSite::Unrestricted => ascii("None"@),
    }
}

pub open spec fn same_site_of(t: Seq<u8>) -> Option<SameSite> {
    if t == same_site_token(SameSite::Strict) {
        Some(SameSite::Strict)
    } else if t == same_site_token(SameSite::Lax) {
        Some(SameSite::Lax)
    } else if t == same_site_token(SameSite::Unrestricted) {
        Some(SameSite::Unrestricted)
    } else {
        None
    }
}

pub open spec fn same_site_key() -> Seq<u8> {
    ascii("SameSite="@)
}

pub open spec fn secure_key() -> Seq<u8> {
    ascii("Secure"@)
}

pub open spec fn partitioned_key() -> Seq<u8> {
    ascii("Partitioned"@)
}

pub open spec fn max_age_key() -> Seq<u8> {
    ascii("Max-Age="@)
}

pub open spec fn set_cookie_name() -> Seq<u8> {
    ascii("Set-Cookie"@)
}

pub open spec fn cookie_name() -> Seq<u8> {
    ascii("cookie"@)
}

/// The attribute segments, each after `; `, in a fixed order.
pub open spec fn attributes_segments(a: CookieAttributes) -> Seq<Seq<u8>> {
    (match a.same_site {
        Some(s) => seq![same_site_key() + same_site_token(s)],
        None => Seq::empty(),
    }) + (if a.secure { seq![secure_key()] } else { Seq::empty() }) + (if a.partitioned {
        seq![partitioned_key()]
    } else {
        Seq::empty()
    }) + (match a.max_age {
        Some(n) => seq![max_age_key() + decimal(n as nat)],
        None => Seq::empty(),
    })
}

/// The value of the `Set-Cookie` line for a cookie.
pub open spec fn set_cookie_text(name: Seq<u8>, value: Seq<u8>, a: CookieAttributes) -> Seq<u8> {
    join_with(
        seq![name + seq![EQUALS] + value] + attributes_segments(a).map_values(|s: Seq<u8>| seq![SP] + s),
        SEMICOLON,
    )
}

/// What one attribute segment (after its leading space) does to the attributes.
pub open spec fn apply_attribute(a: CookieAttributes, seg: Seq<u8>) -> Option<CookieAttributes> {
    if seg.len() > 0 && seg[0] == SP {
        let t = seg.drop_first();
        let sk = same_site_key();
        let mk = max_age_key();
        if t == secure_key() {
            Some(CookieAttributes { secure: true, ..a })
        } else if t == partitioned_key() {
            Some(CookieAttributes { partitioned: true, ..a })
        } else if sk.len() <= t.len() && t.subrange(0, sk.len() as int) == sk {
            match same_site_of(t.subrange(sk.len() as int, t.len() as int)) {
                Some(s) => Some(CookieAttributes { same_site: Some(s), ..a }),
                None => None,
            }
        } else if mk.len() <= t.len() && t.subrange(0, mk.len() as int) == mk {
            match decimal_value(t.subrange(mk.len() as int, t.len() as int)) {
                Some(n) => Some(CookieAttributes { max_age: Some(n as u64), ..a }),
                None => None,
            }
        } else {
            Some(a)
        }
    } else {
        None
    }
}

/// The attributes that the segments give, applied left to right.
pub open spec fn attributes_of(a: CookieAttributes, segs: Seq<Seq<u8>>) -> Option<CookieAttributes>
    decreases segs.len(),
{
    if segs.len() == 0 {
        Some(a)
    } else {
        match apply_attribute(a, segs[0]) {
            None => None,
            Some(b) => attributes_of(b, segs.drop_first()),
        }
    }
}

/// The cookie that a `Set-Cookie` value holds: `name=value`, then the
/// attributes; `None` when the first segment holds no `=` or an attribute is
/// unreadable. Attributes of other names are passed over.
pub open spec fn set_cookie_of(v: Seq<u8>) -> Option<(Seq<u8>, Seq<u8>, CookieAttributes)> {
    let segs = split_on(v, SEMICOLON);
    let first = segs[0];
    let e = first_index(first, EQUALS);
    if 0 <= e < first.len() {
        match attributes_of(no_attributes(), segs.drop_first()) {
            Some(a) => Some((first.subrange(0, e), first.subrange(e + 1, first.len() as int), a)),
            None => None,
        }
    } else {
        None
    }
}


/// A cookie pair of a `Cookie` header segment: `None` when the segment is
/// not `name=value` with a non-empty name, `Some(None)` for an empty segment.
pub open spec fn cookie_pair_of(seg: Seq<u8>) -> Option<Option<PairView>> {
    let t = if seg.len() > 0 && seg[0] == SP { seg.drop_first() } else { seg };
    if t.len() == 0 {
        Some(None)
    } else {
        let e = first_index(t, EQUALS);
        if 0 < e < t.len() {
            Some(Some((t.subrange(0, e), t.subrange(e + 1, t.len() as int))))
        } else {
            None
        }
    }
}

pub open spec fn prepend_pairs(acc: Seq<PairView>, r: Option<Seq<PairView>>) -> Option<Seq<PairView>> {
    match r {
        Some(x) => Some(acc + x),
        None => None,
    }
}

pub open spec fn cookie_pairs_of(segs: Seq<Seq<u8>>) -> Option<Seq<PairView>>
    decreases segs.len(),
{
    if segs.len() == 0 {
        Some(Seq::empty())
    } else {
        match cookie_pair_of(segs[0]) {
            None => None,
            Some(None) => cookie_pairs_of(segs.drop_first()),
            Some(Some(p)) => prepend_pairs(seq![p], cookie_pairs_of(segs.drop_first())),
        }
    }
}

/// The cookies that the `Cookie` headers among `hs` carry, in order; `None`
/// when one of them is not `name=value; name=value ...`.
pub open spec fn cookies_of(hs: Seq<PairView>) -> Option<Seq<PairView>>
    decreases hs.len(),
{
    if hs.len() == 0 {
        Some(Seq::empty())
    } else if eq_ignore_case(hs[0].0, cookie_name()) {
        match cookie_pairs_of(split_on(hs[0].1, SEMICOLON)) {
            None => None,
            Some(a) => prepend_pairs(a, cookies_of(hs.drop_first())),
        }
    } else {
        cookies_of(hs.drop_first())
    }
}

pub open spec fn has_cookie_named(cs: Seq<PairView>, name: Seq<u8>) -> bool {
    exists|i: int| 0 <= i < cs.len() && (#[trigger] cs[i]).0 == name
}

proof fn lemma_prepend_assoc(a: Seq<PairView>, b: Seq<PairView>, r: Option<Seq<PairView>>)
    ensures
        prepend_pairs(a, prepend_pairs(b, r)) == prepend_pairs(a + b, r),
{
    match r {
        Some(x) => {
            assert(a + (b + x) =~= a + b + x);
        },
        None => {},
    }
}

fn read_cookie_segments(segs: &Vec<Vec<u8>>, out: &mut Vec<Pair>) -> (ok: bool)
    ensures
        final(out)@.len() >= old(out)@.len(),
        ok ==> cookie_pairs_of(views(segs@)) == Some(pair_views(final(out)@).subrange(old(out)@.len() as int, final(out)@.len() as int)),
        ok ==> pair_views(final(out)@).subrange(0, old(out)@.len() as int) == pair_views(old(out)@),
        !ok ==> cookie_pairs_of(views(segs@)) is None,
{
    let ghost start = old(out)@.len();
    let ghost all = views(segs@);
    let mut i: usize = 0;
    assert(all.subrange(0, all.len() as int) =~= all);
    assert(pair_views(out@).subrange(start as int, out@.len() as int) =~= Seq::<PairView>::empty());
    assert(Seq::<PairView>::empty() + cookie_pairs_of(all)->0 =~= cookie_pairs_of(all)->0);
    while i < segs.len()
        invariant
            0 <= i <= segs@.len(),
            all == views(segs@),
            start == old(out)@.len(),
            start <= out@.len(),
            pair_views(out@).subrange(0, start as int) == pair_views(old(out)@),
            cookie_pairs_of(all) == prepend_pairs(
                pair_views(out@).subrange(start as int, out@.len() as int),
                cookie_pairs_of(all.subrange(i as int, all.len() as int)),
            ),
        decreases segs@.len() - i,
    {
        let ghost rest = all.subrange(i as int, all.len() as int);
        assert(rest[0] == segs@[i as int]@);
        assert(rest.drop_first() =~= all.subrange(i + 1, all.len() as int));
        let seg = segs[i].as_slice();
        let from: usize = if seg.len() > 0 && seg[0] == SP { 1 } else { 0 };
        let ghost t = seg@.subrange(from as int, seg@.len() as int);
        proof {
            if from == 1 {
                assert(t =~= seg@.drop_first());
            } else {
                assert(t =~= seg@);
            }
        }
        if from < seg.len() {
            let e = match find_byte(seg, from, EQUALS) {
                Some(e) => e,
                None => return false,
            };
            if e == from {
                return false;
            }
            let ghost before = out@;
            out.push(Pair { name: copy_range(seg, from, e), value: copy_range(seg, e + 1, seg.len()) });
            proof {
                let p = (t.subrange(0, e - from), t.subrange(e - from + 1, t.len() as int));
                assert(p == out@[out@.len() - 1]@);
                assert(pair_views(out@).subrange(start as int, out@.len() as int) =~= pair_views(before).subrange(
                    start as int,
                    before.len() as int,
                ) + seq![p]);
                assert(pair_views(out@).subrange(0, start as int) =~= pair_views(before).subrange(0, start as int));
                lemma_prepend_assoc(
                    pair_views(before).subrange(start as int, before.len() as int),
                    seq![p],
                    cookie_pairs_of(rest.drop_first()),
                );
            }
        } else {
            assert(t.len() == 0);
        }
        i = i + 1;
    }
    proof {
        assert(all.subrange(i as int, all.len() as int) =~= Seq::<Seq<u8>>::empty());
        assert(pair_views(out@).subrange(start as int, out@.len() as int) + Seq::<PairView>::empty()
            =~= pair_views(out@).subrange(start as int, out@.len() as int));
    }
    true
}

/// Reads the cookies of a request's headers. An absent or empty `Cookie`
/// header gives no cookies; a segment that is not `name=value` is an error.
pub fn read_cookies(headers: &Vec<Pair>) -> (r: Result<Vec<Pair>, HttpError>)
    ensures
        match r {
            Ok(cs) => cookies_of(pair_views(headers@)) == Some(pair_views(cs@)),
            Err(e) => cookies_of(pair_views(headers@)) is None && e == HttpError::MalformedInput,
        },
{
    proof {
        reveal_strlit("cookie");
    }
    let name = text("cookie");
    let mut out: Vec<Pair> = Vec::new();
    let ghost all = pair_views(headers@);
    let mut i: usize = 0;
    assert(all.subrange(0, all.len() as int) =~= all);
    assert(pair_views(out@) =~= Seq::<PairView>::empty());
    assert(Seq::<PairView>::empty() + cookies_of(all)->0 =~= cookies_of(all)->0);
    while i < headers.len()
        invariant
            0 <= i <= headers@.len(),
            all == pair_views(headers@),
            name@ == cookie_name(),
            cookies_of(all) == prepend_pairs(pair_views(out@), cookies_of(all.subrange(i as int, all.len() as int))),
        decreases headers@.len() - i,
    {
        let ghost rest = all.subrange(i as int, all.len() as int);
        assert(rest[0] == headers@[i as int]@);
        assert(rest.drop_first() =~= all.subrange(i + 1, all.len() as int));
        if equals_ignore_case(headers[i].name.as_slice(), name.as_slice()) {
            let segs = split_bytes(headers[i].value.as_slice(), SEMICOLON);
            let ghost before = out@;
            if !read_cookie_segments(&segs, &mut out) {
                return Err(HttpError::MalformedInput);
            }
            proof {
                let added = pair_views(out@).subrange(before.len() as int, out@.len() as int);
                assert(pair_views(out@) =~= pair_views(out@).subrange(0, before.len() as int) + added);
                assert(pair_views(out@) =~= pair_views(before) + added);
                lemma_prepend_assoc(pair_views(before), added, cookies_of(rest.drop_first()));
            }
        }
        i = i + 1;
    }
    proof {
        assert(all.subrange(i as int, all.len() as int) =~= Seq::<PairView>::empty());
        assert(pair_views(out@) + Seq::<PairView>::empty() =~= pair_views(out@));
    }
    Ok(out)
}

/// Whether a cookie of the given name is among `cs`.
pub fn contains_cookie(cs: &Vec<Pair>, name: &[u8]) -> (r: bool)
    ensures
        r == has_cookie_named(pair_views(cs@), name@),
{
    let mut i: usize = 0;
    while i < cs.len()
        invariant
            0 <= i <= cs@.len(),
            forall|j: int| 0 <= j < i ==> (#[trigger] pair_views(cs@)[j]).0 != name@,
        decreases cs@.len() - i,
    {
        if bytes_eq(cs[i].name.as_slice(), name) {
            assert(pair_views(cs@)[i as int].0 == name@);
            return true;
        }
        assert(pair_views(cs@)[i as int].0 == cs@[i as int].name@);
        i = i + 1;
    }
    false
}


fn same_site_text(s: SameSite) -> (r: Vec<u8>)
    ensures
        r@ == same_site_token(s),
{
    proof {
        reveal_strlit("Strict");
        reveal_strlit("Lax");
        reveal_strlit("None");
    }
    match s {
        SameSite::Strict => text("Strict"),
        SameSite::Lax => text("Lax"),
        SameSite::Unrestricted => text("None"),
    }
}

/// Appends `; ` and a segment, keeping `out` the join of `parts`.
fn push_segment(out: &mut Vec<u8>, seg: &[u8], Ghost(parts): Ghost<Seq<Seq<u8>>>)
    requires
        parts.len() > 0,
        old(out)@ == join_with(parts, SEMICOLON),
    ensures
        final(out)@ == join_with(parts.push(seq![SP] + seg@), SEMICOLON),
{
    proof {
        lemma_join_push(parts, seq![SP] + seg@, SEMICOLON);
    }
    out.push(SEMICOLON);
    out.push(SP);
    append_bytes(out, seg);
    assert(out@ =~= join_with(parts, SEMICOLON) + seq![SEMICOLON] + (seq![SP] + seg@));
}

/// Builds the `Set-Cookie` header for a cookie: `name=value`, then each
/// attribute that is set. The same inputs always give the same bytes.
pub fn write_cookie(name: &[u8], value: &[u8], a: &CookieAttributes) -> (h: Pair)
    ensures
        h.name@ == set_cookie_name(),
        h.value@ == set_cookie_text(name@, value@, *a),
{
    proof {
        reveal_strlit("Set-Cookie");
        reveal_strlit("SameSite=");
        reveal_strlit("Secure");
        reveal_strlit("Partitioned");
        reveal_strlit("Max-Age=");
    }
    let mut out: Vec<u8> = Vec::new();
    append_bytes(&mut out, name);
    out.push(EQUALS);
    append_bytes(&mut out, value);
    let ghost first = name@ + seq![EQUALS] + value@;
    let ghost mut parts: Seq<Seq<u8>> = seq![first];
    assert(out@ =~= first);
    assert(join_with(parts, SEMICOLON) == first);
    let ghost segs = attributes_segments(*a);
    let ghost mut taken: Seq<Seq<u8>> = Seq::empty();
    match a.same_site {
        Some(s) => {
            let mut seg = text("SameSite=");
            let t = same_site_text(s);
            append_bytes(&mut seg, t.as_slice());
            push_segment(&mut out, seg.as_slice(), Ghost(parts));
            proof {
                parts = parts.push(seq![SP] + seg@);
                taken = taken.push(seg@);
            }
        },
        None => {},
    }
    if a.secure {
        let seg = text("Secure");
        push_segment(&mut out, seg.as_slice(), Ghost(parts));
        proof {
            parts = parts.push(seq![SP] + seg@);
            taken = taken.push(seg@);
        }
    }
    if a.partitioned {
        let seg = text("Partitioned");
        push_segment(&mut out, seg.as_slice(), Ghost(parts));
        proof {
            parts = parts.push(seq![SP] + seg@);
            taken = taken.push(seg@);
        }
    }
    match a.max_age {
        Some(n) => {
            let mut seg = text("Max-Age=");
            push_decimal(&mut seg, n);
            push_segment(&mut out, seg.as_slice(), Ghost(parts));
            proof {
                parts = parts.push(seq![SP] + seg@);
                taken = taken.push(seg@);
            }
        },
        None => {},
    }
    proof {
        assert(taken =~= segs);
        assert(parts =~= seq![first] + segs.map_values(|s: Seq<u8>| seq![SP] + s));
    }
    Pair { name: text("Set-Cookie"), value: out }
}

fn apply_attribute_exec(a: CookieAttributes, seg: &[u8]) -> (r: Option<CookieAttributes>)
    ensures
        r == apply_attribute(a, seg@),
{
    proof {
        reveal_strlit("SameSite=");
        reveal_strlit("Secure");
        reveal_strlit("Partitioned");
        reveal_strlit("Max-Age=");
        reveal_strlit("Strict");
        reveal_strlit("Lax");
        reveal_strlit("None");
    }
    if seg.len() == 0 || seg[0] != SP {
        return None;
    }
    let t = &seg[1..seg.len()];
    assert(t@ =~= seg@.drop_first());
    let sk = text("SameSite=");
    let mk = text("Max-Age=");
    if bytes_eq(t, text("Secure").as_slice()) {
        Some(CookieAttributes { secure: true, ..a })
    } else if bytes_eq(t, text("Partitioned").as_slice()) {
        Some(CookieAttributes { partitioned: true, ..a })
    } else if starts_with(t, sk.as_slice()) {
        let rest = &t[sk.len()..t.len()];
        if bytes_eq(rest, text("Strict").as_slice()) {
            Some(CookieAttributes { same_site: Some(SameSite::Strict), ..a })
        } else if bytes_eq(rest, text("Lax").as_slice()) {
            Some(CookieAttributes { same_site: Some(SameSite::Lax), ..a })
        } else if bytes_eq(rest, text("None").as_slice()) {
            Some(CookieAttributes { same_site: Some(SameSite::Unrestricted), ..a })
        } else {
            None
        }
    } else if starts_with(t, mk.as_slice()) {
        match parse_decimal(&t[mk.len()..t.len()]) {
            Some(n) => Some(CookieAttributes { max_age: Some(n), ..a }),
            None => None,
        }
    } else {
        Some(a)
    }
}

/// Reads the value of a `Set-Cookie` header back into a cookie.
pub fn read_set_cookie(v: &[u8]) -> (r: Result<SetCookie, HttpError>)
    ensures
        match r {
            Ok(c) => set_cookie_of(v@) == Some((c.name@, c.value@, c.attributes)),
            Err(e) => set_cookie_of(v@) is None && e == HttpError::MalformedInput,
        },
{
    let segs = split_bytes(v, SEMICOLON);
    proof {
        lemma_split_nonempty(v@, SEMICOLON);
    }
    let ghost all = views(segs@);
    let first = segs[0].as_slice();
    assert(all[0] == first@);
    assert(first@.subrange(0, first@.len() as int) =~= first@);
    let e = match find_byte(first, 0, EQUALS) {
        Some(e) => e,
        None => return Err(HttpError::MalformedInput),
    };
    let name = copy_range(first, 0, e);
    let value = copy_range(first, e + 1, first.len());
    let mut a = CookieAttributes::none();
    let mut i: usize = 1;
    assert(all.subrange(1, all.len() as int) =~= all.drop_first());
    while i < segs.len()
        invariant
            1 <= i <= segs@.len(),
            all == views(segs@),
            all == split_on(v@, SEMICOLON),
            0 <= e < all[0].len(),
            first_index(all[0], EQUALS) == e,
            name@ == all[0].subrange(0, e as int),
            value@ == all[0].subrange(e + 1, all[0].len() as int),
            attributes_of(no_attributes(), all.drop_first()) == attributes_of(a, all.subrange(i as int, all.len() as int)),
        decreases segs@.len() - i,
    {
        let ghost rest = all.subrange(i as int, all.len() as int);
        assert(rest[0] == segs@[i as int]@);
        assert(rest.drop_first() =~= all.subrange(i + 1, all.len() as int));
        match apply_attribute_exec(a, segs[i].as_slice()) {
            Some(b) => {
                a = b;
            },
            None => {
                assert(attributes_of(a, rest) is None);
                return Err(HttpError::MalformedInput);
            },
        }
        i = i + 1;
    }
    assert(all.subrange(i as int, all.len() as int) =~= Seq::<Seq<u8>>::empty());
    Ok(SetCookie { name, value, attributes: a })
}

/// The attributes that segments give, read in two runs.
proof fn lemma_attributes_concat(a: CookieAttributes, x: Seq<Seq<u8>>, y: Seq<Seq<u8>>)
    ensures
        attributes_of(a, x + y) == match attributes_of(a, x) {
            Some(b) => attributes_of(b, y),
            None => None,
        },
    decreases x.len(),
{
    if x.len() == 0 {
        assert(x + y =~= y);
    } else {
        assert((x + y).drop_first() =~= x.drop_first() + y);
        match apply_attribute(a, x[0]) {
            Some(b) => lemma_attributes_concat(b, x.drop_first(), y),
            None => {},
        }
    }
}

proof fn lemma_single(a: CookieAttributes, seg: Seq<u8>)
    ensures
        attributes_of(a, seq![seq![SP] + seg]) == apply_attribute(a, seq![SP] + seg),
{
    let x = seq![seq![SP] + seg];
    assert(x.drop_first() =~= Seq::<Seq<u8>>::empty());
    match apply_attribute(a, x[0]) {
        Some(b) => {
            assert(attributes_of(b, Seq::<Seq<u8>>::empty()) == Some(b));
        },
        None => {},
    }
}

proof fn lemma_apply_same_site(a: CookieAttributes, s: SameSite)
    ensures
        apply_attribute(a, seq![SP] + (same_site_key() + same_site_token(s))) == Some(
            CookieAttributes { same_site: Some(s), ..a },
        ),
{
    reveal_strlit("SameSite=");
    reveal_strlit("Secure");
    reveal_strlit("Partitioned");
    reveal_strlit("Strict");
    reveal_strlit("Lax");
    reveal_strlit("None");
    let t = same_site_key() + same_site_token(s);
    assert((seq![SP] + t).drop_first() =~= t);
    assert(t.subrange(0, same_site_key().len() as int) =~= same_site_key());
    assert(t.subrange(same_site_key().len() as int, t.len() as int) =~= same_site_token(s));
    assert(t.len() >= 12);
}

proof fn lemma_apply_secure(a: CookieAttributes)
    ensures
        apply_attribute(a, seq![SP] + secure_key()) == Some(CookieAttributes { secure: true, ..a }),
{
    assert((seq![SP] + secure_key()).drop_first() =~= secure_key());
}

proof fn lemma_apply_partitioned(a: CookieAttributes)
    ensures
        apply_attribute(a, seq![SP] + partitioned_key()) == Some(CookieAttributes { partitioned: true, ..a }),
{
    reveal_strlit("Secure");
    reveal_strlit("Partitioned");
    assert((seq![SP] + partitioned_key()).drop_first() =~= partitioned_key());
}

proof fn lemma_apply_max_age(a: CookieAttributes, n: u64)
    ensures
        apply_attribute(a, seq![SP] + (max_age_key() + decimal(n as nat))) == Some(
            CookieAttributes { max_age: Some(n), ..a },
        ),
        lacks(max_age_key() + decimal(n as nat), SEMICOLON),
{
    reveal_strlit("SameSite=");
    reveal_strlit("Secure");
    reveal_strlit("Partitioned");
    reveal_strlit("Max-Age=");
    let d = decimal(n as nat);
    lemma_decimal_value(n as nat);
    let t = max_age_key() + d;
    assert((seq![SP] + t).drop_first() =~= t);
    assert(t.subrange(0, max_age_key().len() as int) =~= max_age_key());
    assert(t.subrange(max_age_key().len() as int, t.len() as int) =~= d);
    assert(t[0] != partitioned_key()[0]);
    assert(t.len() != secure_key().len());
    assert(t.subrange(0, same_site_key().len() as int)[0] != same_site_key()[0]);
    lemma_digits_lack(d, SEMICOLON);
    assert forall|i: int| 0 <= i < t.len() implies #[trigger] t[i] != SEMICOLON by {
        if i >= max_age_key().len() {
            assert(t[i] == d[i - max_age_key().len()]);
        }
    }
}

proof fn lemma_segments_lack(a: CookieAttributes)
    ensures
        forall|i: int|
            0 <= i < attributes_segments(a).len() ==> lacks(#[trigger] attributes_segments(a)[i], SEMICOLON),
{
    reveal_strlit("SameSite=");
    reveal_strlit("Secure");
    reveal_strlit("Partitioned");
    reveal_strlit("Strict");
    reveal_strlit("Lax");
    reveal_strlit("None");
    let segs = attributes_segments(a);
    assert forall|i: int| 0 <= i < segs.len() implies lacks(#[trigger] segs[i], SEMICOLON) by {
        match a.max_age {
            Some(n) => {
                lemma_apply_max_age(a, n);
            },
            None => {},
        }
        match a.same_site {
            Some(s) => {
                let t = same_site_key() + same_site_token(s);
                assert forall|j: int| 0 <= j < t.len() implies #[trigger] t[j] != SEMICOLON by {
                    if j >= same_site_key().len() {
                        assert(t[j] == same_site_token(s)[j - same_site_key().len()]);
                    }
                }
            },
            None => {},
        }
    }
}

proof fn lemma_attribute_segments(a: CookieAttributes)
    ensures
        attributes_of(no_attributes(), attributes_segments(a).map_values(|s: Seq<u8>| seq![SP] + s)) == Some(a),
{
    let e0 = CookieAttributes { same_site: None, secure: false, partitioned: false, max_age: None };
    let ss: Seq<Seq<u8>> = match a.same_site {
        Some(s) => seq![same_site_key() + same_site_token(s)],
        None => Seq::empty(),
    };
    let se: Seq<Seq<u8>> = if a.secure { seq![secure_key()] } else { Seq::empty() };
    let pa: Seq<Seq<u8>> = if a.partitioned { seq![partitioned_key()] } else { Seq::empty() };
    let ma: Seq<Seq<u8>> = match a.max_age {
        Some(n) => seq![max_age_key() + decimal(n as nat)],
        None => Seq::empty(),
    };
    let f = |s: Seq<u8>| seq![SP] + s;
    let segs = attributes_segments(a);
    assert(segs == ss + se + pa + ma);
    let spaced = segs.map_values(f);
    assert(spaced =~= ss.map_values(f) + se.map_values(f) + pa.map_values(f) + ma.map_values(f));
    let e1 = CookieAttributes { same_site: a.same_site, ..e0 };
    let e2 = CookieAttributes { secure: a.secure, ..e1 };
    let e3 = CookieAttributes { partitioned: a.partitioned, ..e2 };
    match a.same_site {
        Some(s) => {
            let t = same_site_key() + same_site_token(s);
            lemma_apply_same_site(e0, s);
            lemma_single(e0, t);
            assert(ss.map_values(f) =~= seq![seq![SP] + t]);
        },
        None => {
            assert(ss.map_values(f) =~= Seq::<Seq<u8>>::empty());
        },
    }
    assert(attributes_of(e0, ss.map_values(f)) == Some(e1));
    if a.secure {
        lemma_apply_secure(e1);
        lemma_single(e1, secure_key());
        assert(se.map_values(f) =~= seq![seq![SP] + secure_key()]);
    } else {
        assert(se.map_values(f) =~= Seq::<Seq<u8>>::empty());
    }
    assert(attributes_of(e1, se.map_values(f)) == Some(e2));
    if a.partitioned {
        lemma_apply_partitioned(e2);
        lemma_single(e2, partitioned_key());
        assert(pa.map_values(f) =~= seq![seq![SP] + partitioned_key()]);
    } else {
        assert(pa.map_values(f) =~= Seq::<Seq<u8>>::empty());
    }
    assert(attributes_of(e2, pa.map_values(f)) == Some(e3));
    match a.max_age {
        Some(n) => {
            let t = max_age_key() + decimal(n as nat);
            lemma_apply_max_age(e3, n);
            lemma_single(e3, t);
            assert(ma.map_values(f) =~= seq![seq![SP] + t]);
        },
        None => {
            assert(ma.map_values(f) =~= Seq::<Seq<u8>>::empty());
        },
    }
    assert(attributes_of(e3, ma.map_values(f)) == Some(a));
    lemma_attributes_concat(e0, ss.map_values(f), se.map_values(f));
    lemma_attributes_concat(e0, ss.map_values(f) + se.map_values(f), pa.map_values(f));
    lemma_attributes_concat(e0, ss.map_values(f) + se.map_values(f) + pa.map_values(f), ma.map_values(f));
}

/// A cookie written by `write_cookie` and read back by `read_set_cookie`
/// keeps its name, its value and every attribute, when the name holds no `=`
/// or `;` and the value no `;`.
pub proof fn law_cookie_round_trip(name: Seq<u8>, value: Seq<u8>, a: CookieAttributes)
    requires
        lacks(name, EQUALS),
        lacks(name, SEMICOLON),
        lacks(value, SEMICOLON),
    ensures
        set_cookie_of(set_cookie_text(name, value, a)) == Some((name, value, a)),
{
    let f = |s: Seq<u8>| seq![SP] + s;
    let first = name + seq![EQUALS] + value;
    let segs = attributes_segments(a);
    let parts = seq![first] + segs.map_values(f);
    lemma_attribute_segments(a);
    lemma_segments_lack(a);
    assert forall|i: int| 0 <= i < parts.len() implies lacks(#[trigger] parts[i], SEMICOLON) by {
        if i == 0 {
            assert forall|j: int| 0 <= j < first.len() implies #[trigger] first[j] != SEMICOLON by {
                if j > name.len() {
                    assert(first[j] == value[j - name.len() - 1]);
                }
            }
        } else {
            assert(parts[i] == seq![SP] + segs[i - 1]);
            assert forall|j: int| 0 <= j < parts[i].len() implies #[trigger] parts[i][j] != SEMICOLON by {
                if j > 0 {
                    assert(parts[i][j] == segs[i - 1][j - 1]);
                }
            }
        }
    }
    lemma_split_join(parts, SEMICOLON);
    let all = split_on(set_cookie_text(name, value, a), SEMICOLON);
    assert(all == parts);
    assert(all[0] == first);
    assert(first =~= name + (seq![EQUALS] + value));
    lemma_first_index_after(name, seq![EQUALS] + value, EQUALS);
    assert(first.subrange(0, name.len() as int) =~= name);
    assert(first.subrange(name.len() + 1 as int, first.len() as int) =~= value);
    assert(all.drop_first() =~= segs.map_values(f));
}

} // verus!
