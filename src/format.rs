//! The `$version$cost$salt[digest]` layout of salts and hashes.

use vstd::prelude::*;
use vstd::slice::{slice_subrange, slice_to_vec};
use crate::codec::{
    b64_decode, b64_encode, decode_salt_text, encode, lemma_salt_text, salt_text_ok, SALT_TEXT_LEN,
};
use crate::error::BcryptError;

verus! {

/// The byte `$`, which separates the fields.
pub const DOLLAR: u8 = 36;

/// Smallest accepted cost.
pub const MIN_COST: u32 = 4;

/// Largest accepted cost.
pub const MAX_COST: u32 = 31;

/// The version tags of the format.
#[derive(Debug, Clone, Copy, PartialEq, Eq, Structural)]
pub enum Version {
    TwoA,
    TwoB,
    TwoX,
    TwoY,
}

/// The two bytes of a version tag.
pub open spec fn tag(v: Version) -> Seq<u8> {
    match v {
        Version::TwoA => seq![50u8, 97u8],
        Version::TwoB => seq![50u8, 98u8],
        Version::TwoX => seq![50u8, 120u8],
        Version::TwoY => seq![50u8, 121u8],
    }
}

/// The version whose tag is `t`, if any.
pub open spec fn version_of(t: Seq<u8>) -> Option<Version> {
    if t == tag(Version::TwoA) {
        Some(Version::TwoA)
    } else if t == tag(Version::TwoB) {
        Some(Version::TwoB)
    } else if t == tag(Version::TwoX) {
        Some(Version::TwoX)
    } else if t == tag(Version::TwoY) {
        Some(Version::TwoY)
    } else {
        None
    }
}

/// The non-empty runs of bytes between `$` separators, in order.
pub open spec fn fields(s: Seq<u8>) -> Seq<Seq<u8>>
    decreases s.len(),
{
    if s.len() == 0 {
        seq![]
    } else {
        let p = fields(s.drop_last());
        if s.last() == DOLLAR {
            p
        } else if s.len() >= 2 && s[s.len() - 2] != DOLLAR {
            p.drop_last().push(p.last().push(s.last()))
        } else {
            p.push(seq![s.last()])
        }
    }
}

pub open spec fn is_digit(c: u8) -> bool {
    48 <= c <= 57
}

pub open spec fn all_digits(d: Seq<u8>) -> bool {
    forall|i: int| 0 <= i < d.len() ==> #[trigger] is_digit(d[i])
}

/// The value of a run of decimal digits.
pub open spec fn digits_value(d: Seq<u8>) -> nat
    decreases d.len(),
{
    if d.len() == 0 {
        0
    } else {
        digits_value(d.drop_last()) * 10 + (d.last() - 48) as nat
    }
}

/// An unsigned 32-bit decimal: an optional `+`, then one or more digits
/// whose value fits.
pub open spec fn parse_u32(t: Seq<u8>) -> Option<u32> {
    let d = if t.len() > 0 && t[0] == 43u8 {
        t.skip(1)
    } else {
        t
    };
    if d.len() > 0 && all_digits(d) && digits_value(d) <= u32::MAX {
        Some(digits_value(d) as u32)
    } else {
        None
    }
}

/// What a salt or hash string holds: version, cost, the sixteen salt bytes,
/// and the text after the salt (the encoded digest of a hash, empty for a salt).
pub open spec fn parse_spec(s: Seq<u8>) -> Option<(Version, u32, Seq<u8>, Seq<u8>)> {
    let f = fields(s);
    if f.len() != 3 {
        None
    } else if version_of(f[0]) is None {
        None
    } else if parse_u32(f[1]) is None {
        None
    } else if !(MIN_COST <= parse_u32(f[1])->0 <= MAX_COST) {
        None
    } else if f[2].len() < 22 {
        None
    } else if !salt_text_ok(f[2].take(22)) {
        None
    } else {
        Some((version_of(f[0])->0, parse_u32(f[1])->0, b64_decode(f[2].take(22)), f[2].skip(22)))
    }
}

/// A cost as two decimal digits.
pub open spec fn two_digits(c: u32) -> Seq<u8> {
    seq![(48 + c / 10) as u8, (48 + c % 10) as u8]
}

/// The string of version, cost, salt and digest.
pub open spec fn serialize_spec(v: Version, c: u32, salt: Seq<u8>, digest: Seq<u8>) -> Seq<u8> {
    seq![DOLLAR] + tag(v) + seq![DOLLAR] + two_digits(c) + seq![DOLLAR] + b64_encode(salt)
        + b64_encode(digest)
}


/// The bounds of each field of `s`, as `(start, end)` pairs.
fn split_fields(s: &[u8]) -> (r: Vec<(usize, usize)>)
    ensures
        r@.len() == fields(s@).len(),
        forall|k: int|
            0 <= k < r@.len() ==> (#[trigger] r@[k]).0 <= r@[k].1 && r@[k].1 <= s@.len() && s@.subrange(
                r@[k].0 as int,
                r@[k].1 as int,
            ) == fields(s@)[k],
{
    let mut r: Vec<(usize, usize)> = Vec::new();
    let mut i: usize = 0;
    while i < s.len()
        invariant
            i <= s@.len(),
            r@.len() == fields(s@.take(i as int)).len(),
            forall|k: int|
                0 <= k < r@.len() ==> (#[trigger] r@[k]).0 <= r@[k].1 && r@[k].1 <= i && s@.subrange(
                    r@[k].0 as int,
                    r@[k].1 as int,
                ) == fields(s@.take(i as int))[k],
            i > 0 && s@[i - 1] != DOLLAR ==> r@.len() > 0 && r@.last().1 == i,
        decreases s@.len() - i,
    {
        let c = s[i];
        let ghost t = s@.take(i + 1);
        let ghost p = fields(s@.take(i as int));
        assert(t.drop_last() =~= s@.take(i as int));
        if c == DOLLAR {
            assert(fields(t) == p);
            assert forall|k: int| 0 <= k < r@.len() implies r@[k].0 <= r@[k].1 && r@[k].1 <= i + 1
                && s@.subrange(r@[k].0 as int, r@[k].1 as int) == fields(t)[k] by {
            }
        } else if i >= 1 && s[i - 1] != DOLLAR {
            let last = r.len() - 1;
            let st = r[last].0;
            assert(t[t.len() - 2] == s@[i - 1]);
            assert(fields(t) == p.drop_last().push(p.last().push(c)));
            assert(s@.subrange(st as int, i + 1) =~= s@.subrange(st as int, i as int).push(c));
            r.set(last, (st, i + 1));
            assert forall|k: int| 0 <= k < r@.len() implies r@[k].0 <= r@[k].1 && r@[k].1 <= i + 1
                && s@.subrange(r@[k].0 as int, r@[k].1 as int) == fields(t)[k] by {
                if k < r@.len() - 1 {
                    assert(fields(t)[k] == p[k]);
                }
            }
        } else {
            if i >= 1 {
                assert(t[t.len() - 2] == s@[i - 1]);
            }
            assert(fields(t) == p.push(seq![c]));
            assert(s@.subrange(i as int, i + 1) =~= seq![c]);
            r.push((i, i + 1));
            assert forall|k: int| 0 <= k < r@.len() implies r@[k].0 <= r@[k].1 && r@[k].1 <= i + 1
                && s@.subrange(r@[k].0 as int, r@[k].1 as int) == fields(t)[k] by {
                if k < r@.len() - 1 {
                    assert(fields(t)[k] == p[k]);
                }
            }
        }
        i = i + 1;
    }
    assert(s@.take(s@.len() as int) =~= s@);
    assert forall|k: int| 0 <= k < r@.len() implies r@[k].0 <= r@[k].1 && r@[k].1 <= s@.len()
        && s@.subrange(r@[k].0 as int, r@[k].1 as int) == fields(s@)[k] by {
        assert(fields(s@.take(s@.len() as int))[k] == fields(s@)[k]);
    }
    r
}

/// Reads an unsigned 32-bit decimal as `str::parse::<u32>` does.
pub fn parse_u32_digits(t: &[u8]) -> (r: Option<u32>)
    ensures
        r == parse_u32(t@),
{
    let start: usize = if t.len() > 0 && t[0] == 43u8 {
        1
    } else {
        0
    };
    let ghost d = t@.skip(start as int);
    assert(d =~= (if t@.len() > 0 && t@[0] == 43u8 {
        t@.skip(1)
    } else {
        t@
    }));
    if start >= t.len() {
        return None;
    }
    let mut val: u64 = 0;
    let mut over = false;
    let mut i: usize = start;
    while i < t.len()
        invariant
            start <= i <= t@.len(),
            d == t@.skip(start as int),
            d == (if t@.len() > 0 && t@[0] == 43u8 {
                t@.skip(1)
            } else {
                t@
            }),
            forall|j: int| start <= j < i ==> #[trigger] is_digit(t@[j]),
            !over ==> val == digits_value(t@.subrange(start as int, i as int)) && val
                <= u32::MAX,
            over ==> digits_value(t@.subrange(start as int, i as int)) > u32::MAX,
        decreases t@.len() - i,
    {
        let c = t[i];
        if !(48u8 <= c && c <= 57u8) {
            assert(!is_digit(d[i - start]));
            assert(!all_digits(d));
            assert(d.len() > 0);
            assert(parse_u32(t@) is None);
            return None;
        }
        let ghost old_v = digits_value(t@.subrange(start as int, i as int));
        assert(t@.subrange(start as int, i + 1).drop_last() =~= t@.subrange(
            start as int,
            i as int,
        ));
        let ghost new_v = digits_value(t@.subrange(start as int, i + 1));
        assert(new_v == old_v * 10 + (c - 48) as nat);
        if over {
            assert(new_v > u32::MAX) by (nonlinear_arith)
                requires
                    new_v == old_v * 10 + (c - 48) as nat,
                    old_v > u32::MAX,
            ;
        } else {
            val = val * 10 + (c - 48) as u64;
            if val > u32::MAX as u64 {
                over = true;
            }
        }
        i = i + 1;
    }
    assert(t@.subrange(start as int, t@.len() as int) =~= d);
    assert forall|j: int| 0 <= j < d.len() implies #[trigger] is_digit(d[j]) by {
        assert(d[j] == t@[j + start]);
    }
    assert(all_digits(d));
    if over {
        None
    } else {
        Some(val as u32)
    }
}


/// The tag's version, if the tag is one of the four.
fn version_from_tag(t: &[u8]) -> (r: Option<Version>)
    ensures
        r == version_of(t@),
{
    if t.len() != 2 || t[0] != 50u8 {
        proof {
            assert(t@ != tag(Version::TwoA));
            assert(t@ != tag(Version::TwoB));
            assert(t@ != tag(Version::TwoX));
            assert(t@ != tag(Version::TwoY));
        }
        return None;
    }
    let c = t[1];
    if c == 97u8 {
        assert(t@ =~= tag(Version::TwoA));
        Some(Version::TwoA)
    } else if c == 98u8 {
        assert(t@ =~= tag(Version::TwoB));
        Some(Version::TwoB)
    } else if c == 120u8 {
        assert(t@ =~= tag(Version::TwoX));
        Some(Version::TwoX)
    } else if c == 121u8 {
        assert(t@ =~= tag(Version::TwoY));
        Some(Version::TwoY)
    } else {
        proof {
            assert(t@[1] != tag(Version::TwoA)[1]);
            assert(t@[1] != tag(Version::TwoB)[1]);
            assert(t@[1] != tag(Version::TwoX)[1]);
            assert(t@[1] != tag(Version::TwoY)[1]);
        }
        None
    }
}

/// The fields of a salt or hash string.
pub struct SaltParts {
    pub version: Version,
    pub cost: u32,
    /// The sixteen raw salt bytes.
    pub salt: Vec<u8>,
    /// The text that follows the encoded salt.
    pub rest: Vec<u8>,
}

impl View for SaltParts {
    type V = (Version, u32, Seq<u8>, Seq<u8>);

    open spec fn view(&self) -> (Version, u32, Seq<u8>, Seq<u8>) {
        (self.version, self.cost, self.salt@, self.rest@)
    }
}

/// Splits a salt or hash string into version, cost, salt and the text after
/// the salt; any structural, tag, cost or encoding fault is `InvalidSalt`.
pub fn parse_salt(s: &[u8]) -> (r: Result<SaltParts, BcryptError>)
    ensures
        r is Ok <==> parse_spec(s@) is Some,
        r matches Ok(p) ==> parse_spec(s@) == Some(p@),
        r matches Err(e) ==> e == BcryptError::InvalidSalt,
        r matches Ok(p) ==> p.salt@.len() == 16 && MIN_COST <= p.cost <= MAX_COST,
{
    let f = split_fields(s);
    let ghost fs = fields(s@);
    if f.len() != 3 {
        return Err(BcryptError::InvalidSalt);
    }
    let (a0, b0) = f[0];
    let (a1, b1) = f[1];
    let (a2, b2) = f[2];
    let version = match version_from_tag(slice_subrange(s, a0, b0)) {
        Some(v) => v,
        None => {
            return Err(BcryptError::InvalidSalt);
        },
    };
    let cost = match parse_u32_digits(slice_subrange(s, a1, b1)) {
        Some(c) => c,
        None => {
            return Err(BcryptError::InvalidSalt);
        },
    };
    if cost < MIN_COST || cost > MAX_COST {
        return Err(BcryptError::InvalidSalt);
    }
    let remainder = slice_subrange(s, a2, b2);
    if remainder.len() < SALT_TEXT_LEN {
        return Err(BcryptError::InvalidSalt);
    }
    let text = slice_subrange(remainder, 0, SALT_TEXT_LEN);
    assert(text@ =~= fs[2].take(22));
    let salt = match decode_salt_text(text) {
        Some(v) => v,
        None => {
            return Err(BcryptError::InvalidSalt);
        },
    };
    proof {
        crate::codec::lemma_decode_len(text@);
    }
    let rest = slice_to_vec(slice_subrange(remainder, SALT_TEXT_LEN, remainder.len()));
    assert(rest@ =~= fs[2].skip(22));
    Ok(SaltParts { version, cost, salt, rest })
}

fn push_tag(out: &mut Vec<u8>, v: Version)
    ensures
        final(out)@ == old(out)@ + tag(v),
{
    out.push(50u8);
    let c: u8 = match v {
        Version::TwoA => 97,
        Version::TwoB => 98,
        Version::TwoX => 120,
        Version::TwoY => 121,
    };
    out.push(c);
    assert(final(out)@ =~= old(out)@ + tag(v));
}

/// Writes version, cost, salt and digest as `$<tag>$<cost>$<salt><digest>`,
/// the cost as two digits and salt and digest in bcrypt Base64.
pub fn serialize(v: Version, cost: u32, salt: &[u8], digest: &[u8]) -> (r: Vec<u8>)
    requires
        MIN_COST <= cost <= MAX_COST,
    ensures
        r@ == serialize_spec(v, cost, salt@, digest@),
{
    let mut r: Vec<u8> = Vec::new();
    r.push(DOLLAR);
    push_tag(&mut r, v);
    r.push(DOLLAR);
    r.push((48 + cost / 10) as u8);
    r.push((48 + cost % 10) as u8);
    r.push(DOLLAR);
    let mut e = encode(salt);
    r.append(&mut e);
    let mut d = encode(digest);
    r.append(&mut d);
    assert(r@ =~= serialize_spec(v, cost, salt@, digest@));
    r
}


/// A string that parses carries sixteen salt bytes and a cost in range.
pub proof fn lemma_parsed_salt_len(s: Seq<u8>)
    requires
        parse_spec(s) is Some,
    ensures
        ({
            let (v, c, salt, rest) = parse_spec(s)->0;
            salt.len() == 16 && MIN_COST <= c <= MAX_COST
        }),
{
    crate::codec::lemma_decode_len(fields(s)[2].take(22));
}

proof fn lemma_fields_dollar(p: Seq<u8>)
    ensures
        fields(p.push(DOLLAR)) == fields(p),
{
    assert(p.push(DOLLAR).drop_last() =~= p);
}

proof fn lemma_fields_append(p: Seq<u8>, x: Seq<u8>)
    requires
        p.len() == 0 || p.last() == DOLLAR,
        x.len() > 0,
        forall|i: int| 0 <= i < x.len() ==> x[i] != DOLLAR,
    ensures
        fields(p + x) == fields(p).push(x),
    decreases x.len(),
{
    let s = p + x;
    let y = x.drop_last();
    assert(s.drop_last() =~= p + y);
    assert(s.last() == x.last());
    if y.len() == 0 {
        assert(p + y =~= p);
        if s.len() >= 2 {
            assert(s[s.len() - 2] == p.last());
        }
        assert(seq![s.last()] =~= x);
    } else {
        lemma_fields_append(p, y);
        assert(s[s.len() - 2] == y.last());
        assert(fields(p).push(y).drop_last() =~= fields(p));
        assert(y.push(x.last()) =~= x);
    }
}

/// Parsing a serialized salt or hash gives back its version, cost and salt,
/// and the encoded digest as the text after the salt.
pub proof fn lemma_parse_serialize(v: Version, c: u32, salt: Seq<u8>, digest: Seq<u8>)
    requires
        MIN_COST <= c <= MAX_COST,
        salt.len() == 16,
    ensures
        parse_spec(serialize_spec(v, c, salt, digest)) == Some((v, c, salt, b64_encode(digest))),
{
    let t = tag(v);
    let d = two_digits(c);
    let es = b64_encode(salt);
    let ed = b64_encode(digest);
    let e = es + ed;
    lemma_salt_text(salt);
    crate::codec::lemma_decode_encode(salt);
    crate::codec::lemma_decode_encode(digest);
    assert forall|i: int| 0 <= i < e.len() implies e[i] != DOLLAR by {
        if i < es.len() {
            assert(crate::codec::is_sym(es[i]));
        } else {
            assert(crate::codec::is_sym(ed[i - es.len()]));
        }
    }
    let s1 = seq![DOLLAR];
    let s2 = s1 + t;
    let s3 = s2.push(DOLLAR);
    let s4 = s3 + d;
    let s5 = s4.push(DOLLAR);
    let s6 = s5 + e;
    assert(s1 =~= Seq::<u8>::empty().push(DOLLAR));
    lemma_fields_dollar(Seq::<u8>::empty());
    assert(fields(Seq::<u8>::empty()) =~= Seq::<Seq<u8>>::empty());
    lemma_fields_append(s1, t);
    lemma_fields_dollar(s2);
    lemma_fields_append(s3, d);
    lemma_fields_dollar(s4);
    lemma_fields_append(s5, e);
    assert(serialize_spec(v, c, salt, digest) =~= s6);
    let f = fields(s6);
    assert(f =~= seq![t, d, e]);
    assert(version_of(t) == Some(v));
    assert(d.drop_last() =~= seq![d[0]]);
    assert(seq![d[0]].drop_last() =~= Seq::<u8>::empty());
    assert(d[0] - 48 == c / 10);
    assert(d[1] - 48 == c % 10);
    let d0 = seq![d[0]];
    assert(d0.last() == d[0]);
    assert(d0.drop_last() =~= Seq::<u8>::empty());
    assert(digits_value(Seq::<u8>::empty()) == 0);
    assert(digits_value(d0) == digits_value(d0.drop_last()) * 10 + (d0.last() - 48) as nat);
    assert(digits_value(d0) == c / 10);
    assert(digits_value(d) == (c / 10) * 10 + c % 10);
    assert(digits_value(d) == c);
    assert(all_digits(d));
    assert(parse_u32(d) == Some(c));
    assert(e.take(22) =~= es);
    assert(e.skip(22) =~= ed);
}

} // verus!
