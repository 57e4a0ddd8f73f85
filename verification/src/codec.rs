//! The binary codec for the stored record types: a compact,
//! self-describing, canonical encoding.  Counters and lengths are 8-byte
//! little-endian words; strings carry their UTF-8 byte length; a crate
//! record is its version list; a version record is name, version and
//! change kind.  Decoding accepts exactly the encodings this module
//! produces, which makes encode and decode mutual inverses.
use vstd::prelude::*;
use vstd::slice::slice_subrange;
use vstd::utf8::{valid_utf8, decode_utf8, encode_utf8};
use crate::model::{ChangeKind, Context, Crate, CrateVersion, CrateVersionView, CrateView};

verus! {

/// The least width that cannot be stored: lengths must fit an 8-byte word.
pub open spec fn len_limit() -> int {
    0x1_0000_0000_0000_0000
}

/// The 8-byte little-endian rendering of a 64-bit word.
pub open spec fn u64_le(x: u64) -> Seq<u8> {
    seq![
        (x & 0xff) as u8,
        ((x >> 8) & 0xff) as u8,
        ((x >> 16) & 0xff) as u8,
        ((x >> 24) & 0xff) as u8,
        ((x >> 32) & 0xff) as u8,
        ((x >> 40) & 0xff) as u8,
        ((x >> 48) & 0xff) as u8,
        ((x >> 56) & 0xff) as u8,
    ]
}

/// The 64-bit word read from the first 8 bytes of a sequence,
/// least-significant byte first.
pub open spec fn dec_u64(s: Seq<u8>) -> u64
    recommends
        s.len() >= 8,
{
    (s[0] as u64) | ((s[1] as u64) << 8) | ((s[2] as u64) << 16) | ((s[3] as u64) << 24) | ((
    s[4] as u64) << 32) | ((s[5] as u64) << 40) | ((s[6] as u64) << 48) | ((s[7] as u64) << 56)
}

/// Reading back an encoded word yields the word.
pub proof fn lemma_u64_round_trip(x: u64)
    ensures
        dec_u64(u64_le(x)) == x,
{
    assert((((x & 0xff) as u8 as u64) | ((((x >> 8) & 0xff) as u8 as u64) << 8) | ((((x >> 16)
        & 0xff) as u8 as u64) << 16) | ((((x >> 24) & 0xff) as u8 as u64) << 24) | ((((x >> 32)
        & 0xff) as u8 as u64) << 32) | ((((x >> 40) & 0xff) as u8 as u64) << 40) | ((((x >> 48)
        & 0xff) as u8 as u64) << 48) | ((((x >> 56) & 0xff) as u8 as u64) << 56)) == x)
        by (bit_vector);
}

/// Re-encoding a decoded 8-byte block yields the block.
pub proof fn lemma_u64_bytes_round_trip(s: Seq<u8>)
    requires
        s.len() == 8,
    ensures
        u64_le(dec_u64(s)) =~= s,
{
    let b0 = s[0];
    let b1 = s[1];
    let b2 = s[2];
    let b3 = s[3];
    let b4 = s[4];
    let b5 = s[5];
    let b6 = s[6];
    let b7 = s[7];
    let y = dec_u64(s);
    assert(y == (b0 as u64) | ((b1 as u64) << 8) | ((b2 as u64) << 16) | ((b3 as u64) << 24) | ((
    b4 as u64) << 32) | ((b5 as u64) << 40) | ((b6 as u64) << 48) | ((b7 as u64) << 56));
    assert((y & 0xff) as u8 == b0 && ((y >> 8) & 0xff) as u8 == b1 && ((y >> 16) & 0xff) as u8 == b2
        && ((y >> 24) & 0xff) as u8 == b3 && ((y >> 32) & 0xff) as u8 == b4 && ((y >> 40)
        & 0xff) as u8 == b5 && ((y >> 48) & 0xff) as u8 == b6 && ((y >> 56) & 0xff) as u8 == b7)
        by (bit_vector)
        requires
            y == (b0 as u64) | ((b1 as u64) << 8) | ((b2 as u64) << 16) | ((b3 as u64) << 24) | ((
            b4 as u64) << 32) | ((b5 as u64) << 40) | ((b6 as u64) << 48) | ((b7 as u64) << 56),
    ;
}

/// Appends the 8-byte little-endian rendering of `x`.
pub fn encode_u64(out: &mut Vec<u8>, x: u64)
    ensures
        final (out)@ =~= old(out)@ + u64_le(x),
{
    proof {
        assert((x & 0xff) < 256 && ((x >> 8) & 0xff) < 256 && ((x >> 16) & 0xff) < 256 && ((x >> 24)
            & 0xff) < 256 && ((x >> 32) & 0xff) < 256 && ((x >> 40) & 0xff) < 256 && ((x >> 48)
            & 0xff) < 256 && ((x >> 56) & 0xff) < 256) by (bit_vector);
    }
    out.push((x & 0xff) as u8);
    out.push(((x >> 8) & 0xff) as u8);
    out.push(((x >> 16) & 0xff) as u8);
    out.push(((x >> 24) & 0xff) as u8);
    out.push(((x >> 32) & 0xff) as u8);
    out.push(((x >> 40) & 0xff) as u8);
    out.push(((x >> 48) & 0xff) as u8);
    out.push(((x >> 56) & 0xff) as u8);
}

/// Reads the 8-byte little-endian word at `pos`.
pub fn decode_u64(b: &Vec<u8>, pos: usize) -> (x: u64)
    requires
        pos + 8 <= b@.len(),
    ensures
        x == dec_u64(b@.subrange(pos as int, pos + 8)),
{
    let l = b.len();
    let x = (b[pos] as u64) | ((b[pos + 1] as u64) << 8u64) | ((b[pos + 2] as u64) << 16u64) | ((
    b[pos + 3] as u64) << 24u64) | ((b[pos + 4] as u64) << 32u64) | ((b[pos + 5] as u64) << 40u64)
        | ((b[pos + 6] as u64) << 48u64) | ((b[pos + 7] as u64) << 56u64);
    proof {
        let s = b@.subrange(pos as int, pos + 8);
        assert(s[0] == b@[pos as int] && s[1] == b@[pos + 1] && s[2] == b@[pos + 2]
            && s[3] == b@[pos + 3] && s[4] == b@[pos + 4] && s[5] == b@[pos + 5]
            && s[6] == b@[pos + 6] && s[7] == b@[pos + 7]);
    }
    x
}

/// The encoding of one string: the byte length of its UTF-8 form, then
/// those bytes.
pub open spec fn enc_str(s: Seq<char>) -> Seq<u8> {
    u64_le(encode_utf8(s).len() as u64) + encode_utf8(s)
}

/// A string whose UTF-8 form fits the length word.  Every string held in
/// memory does.
pub open spec fn str_encodable(s: Seq<char>) -> bool {
    encode_utf8(s).len() < len_limit()
}

/// Parses one encoded string at `pos`: the characters and the position
/// just past them, or nothing if the bytes are not an encoding.
pub open spec fn dec_str_at(b: Seq<u8>, pos: int) -> Option<(Seq<char>, int)> {
    if pos + 8 > b.len() {
        None
    } else {
        let n = dec_u64(b.subrange(pos, pos + 8)) as int;
        if pos + 8 + n > b.len() {
            None
        } else if !valid_utf8(b.subrange(pos + 8, pos + 8 + n)) {
            None
        } else {
            Some((decode_utf8(b.subrange(pos + 8, pos + 8 + n)), pos + 8 + n))
        }
    }
}

/// An encoded string embedded in a larger sequence parses back to itself.
pub proof fn lemma_dec_str_at(b: Seq<u8>, pos: int, s: Seq<char>)
    requires
        0 <= pos,
        str_encodable(s),
        pos + enc_str(s).len() <= b.len(),
        b.subrange(pos, pos + enc_str(s).len()) =~= enc_str(s),
    ensures
        dec_str_at(b, pos) == Some((s, pos + enc_str(s).len())),
{
    broadcast use vstd::utf8::encode_utf8_valid_utf8, vstd::utf8::encode_utf8_decode_utf8;

    let u = encode_utf8(s);
    let n = u.len() as int;
    let e = enc_str(s);
    assert forall|i: int| 0 <= i < 8 + n implies b.subrange(pos, pos + 8 + n)[i] == e[i] by {
        assert(b.subrange(pos, pos + e.len() as int)[i] == e[i]);
    }
    assert forall|i: int| 0 <= i < 8 implies #[trigger] (b.subrange(pos, pos + 8)[i]) == u64_le(
        n as u64,
    )[i] by {
        assert(b.subrange(pos, pos + 8 + n)[i] == e[i]);
    }
    assert(b.subrange(pos, pos + 8) =~= u64_le(n as u64));
    lemma_u64_round_trip(n as u64);
    assert(dec_u64(b.subrange(pos, pos + 8)) == n as u64);
    assert forall|i: int| 0 <= i < n implies b.subrange(pos + 8, pos + 8 + n)[i] == u[i] by {
        assert(b.subrange(pos, pos + 8 + n)[8 + i] == e[8 + i]);
        assert(e[8 + i] == u[i]);
    }
    assert(b.subrange(pos + 8, pos + 8 + n) =~= u);
    assert(valid_utf8(u));
    assert(decode_utf8(u) == s);
}

/// Whatever parses as a string came from exactly one encoding: its own.
pub proof fn lemma_str_at_canonical(b: Seq<u8>, pos: int)
    requires
        0 <= pos <= b.len(),
        dec_str_at(b, pos) is Some,
    ensures
        ({
            let (s, p) = dec_str_at(b, pos)->0;
            &&& pos + 8 <= p <= b.len()
            &&& str_encodable(s)
            &&& enc_str(s) =~= b.subrange(pos, p)
        }),
{
    broadcast use vstd::utf8::decode_utf8_encode_utf8;

    let (s, p) = dec_str_at(b, pos)->0;
    let n = dec_u64(b.subrange(pos, pos + 8)) as int;
    let chunk = b.subrange(pos + 8, pos + 8 + n);
    assert(encode_utf8(s) == chunk);
    lemma_u64_bytes_round_trip(b.subrange(pos, pos + 8));
    assert(u64_le(n as u64) =~= b.subrange(pos, pos + 8));
    assert(enc_str(s) =~= b.subrange(pos, pos + 8) + b.subrange(pos + 8, pos + 8 + n));
    assert(b.subrange(pos, pos + 8) + b.subrange(pos + 8, pos + 8 + n) =~= b.subrange(pos, p));
}

/// Appends the encoding of one string.
pub fn encode_string(out: &mut Vec<u8>, s: &str)
    ensures
        final (out)@ =~= old(out)@ + enc_str(s@),
        str_encodable(s@),
{
    let bv = s.as_bytes_vec();
    encode_u64(out, bv.len() as u64);
    out.extend_from_slice(bv.as_slice());
}

/// Declares the error a failed UTF-8 check reports; only its presence
/// matters here.
#[verifier::external_type_specification]
#[verifier::external_body]
pub struct ExUtf8Error(core::str::Utf8Error);

/// Relies on str::from_utf8: succeeds exactly on valid UTF-8 and returns
/// the characters those bytes encode.
pub assume_specification [ core::str::from_utf8 ](v: &[u8]) -> (r: Result<
    &str,
    core::str::Utf8Error,
>)
    ensures
        r is Ok <==> valid_utf8(v@),
        r is Ok ==> encode_utf8(r->Ok_0@) =~= v@,
;

/// Parses one encoded string at `pos`, as [`dec_str_at`] reads it.
pub fn decode_string_at(b: &Vec<u8>, pos: usize) -> (r: Option<(String, usize)>)
    requires
        pos <= b@.len(),
    ensures
        match r {
            Some(sp) => {
                &&& dec_str_at(b@, pos as int) == Some((sp.0@, sp.1 as int))
                &&& pos + 8 <= sp.1 <= b@.len()
            },
            None => dec_str_at(b@, pos as int) is None,
        },
{
    if b.len() - pos < 8 {
        return None;
    }
    let n = decode_u64(b, pos);
    let rest = b.len() - pos - 8;
    if n > rest as u64 {
        return None;
    }
    let m = n as usize;
    let chunk = slice_subrange(b.as_slice(), pos + 8, pos + 8 + m);
    match core::str::from_utf8(chunk) {
        Ok(st) => {
            proof {
                vstd::utf8::encode_utf8_decode_utf8(st@);
                assert(decode_utf8(chunk@) == st@);
            }
            Some((st.to_owned(), pos + 8 + m))
        },
        Err(_) => None,
    }
}

/// The byte that stands for a change kind.
pub open spec fn kind_byte(k: ChangeKind) -> u8 {
    match k {
        ChangeKind::Added => 0u8,
        ChangeKind::Yanked => 1u8,
    }
}

/// The change kind a byte stands for, if any.
pub open spec fn dec_kind(b: u8) -> Option<ChangeKind> {
    if b == 0 {
        Some(ChangeKind::Added)
    } else if b == 1 {
        Some(ChangeKind::Yanked)
    } else {
        None
    }
}

/// The encoding of a daily context record: its three counters.
pub open spec fn enc_context(c: Context) -> Seq<u8> {
    u64_le(c.new_crates) + u64_le(c.new_crate_versions) + u64_le(c.errors)
}

/// Parses a daily context record; the encoding is exactly 24 bytes.
pub open spec fn dec_context(b: Seq<u8>) -> Option<Context> {
    if b.len() == 24 {
        Some(
            Context {
                new_crates: dec_u64(b.subrange(0, 8)),
                new_crate_versions: dec_u64(b.subrange(8, 16)),
                errors: dec_u64(b.subrange(16, 24)),
            },
        )
    } else {
        None
    }
}

/// Decoding an encoded context yields the context.
pub proof fn lemma_context_round_trip(c: Context)
    ensures
        dec_context(enc_context(c)) == Some(c),
{
    let b = enc_context(c);
    assert(b.subrange(0, 8) =~= u64_le(c.new_crates));
    assert(b.subrange(8, 16) =~= u64_le(c.new_crate_versions));
    assert(b.subrange(16, 24) =~= u64_le(c.errors));
    lemma_u64_round_trip(c.new_crates);
    lemma_u64_round_trip(c.new_crate_versions);
    lemma_u64_round_trip(c.errors);
}

/// Re-encoding a decoded context record yields the original bytes.
pub proof fn lemma_context_bytes_round_trip(b: Seq<u8>)
    requires
        dec_context(b) is Some,
    ensures
        enc_context(dec_context(b)->0) =~= b,
{
    lemma_u64_bytes_round_trip(b.subrange(0, 8));
    lemma_u64_bytes_round_trip(b.subrange(8, 16));
    lemma_u64_bytes_round_trip(b.subrange(16, 24));
    assert(b.subrange(0, 8) + b.subrange(8, 16) + b.subrange(16, 24) =~= b);
}

/// Encodes a daily context record.
pub fn encode_context(c: &Context) -> (r: Vec<u8>)
    ensures
        r@ =~= enc_context(*c),
{
    let mut out: Vec<u8> = Vec::new();
    encode_u64(&mut out, c.new_crates);
    encode_u64(&mut out, c.new_crate_versions);
    encode_u64(&mut out, c.errors);
    out
}

/// Decodes a daily context record, as [`dec_context`] reads it.
pub fn decode_context(b: &Vec<u8>) -> (r: Option<Context>)
    ensures
        r == dec_context(b@),
{
    if b.len() != 24 {
        return None;
    }
    let new_crates = decode_u64(b, 0);
    let new_crate_versions = decode_u64(b, 8);
    let errors = decode_u64(b, 16);
    Some(Context { new_crates, new_crate_versions, errors })
}

/// The encoding of one observed version event: name, version, change kind.
pub open spec fn enc_crate_version(v: CrateVersionView) -> Seq<u8> {
    enc_str(v.name) + enc_str(v.version) + seq![kind_byte(v.kind)]
}

/// An event both of whose strings fit the length words.
pub open spec fn crate_version_encodable(v: CrateVersionView) -> bool {
    str_encodable(v.name) && str_encodable(v.version)
}

/// Parses one version event record.
pub open spec fn dec_crate_version(b: Seq<u8>) -> Option<CrateVersionView> {
    match dec_str_at(b, 0) {
        None => None,
        Some((name, p1)) => match dec_str_at(b, p1) {
            None => None,
            Some((version, p2)) => {
                if p2 + 1 == b.len() {
                    match dec_kind(b[p2]) {
                        None => None,
                        Some(kind) => Some(CrateVersionView { name, version, kind }),
                    }
                } else {
                    None
                }
            },
        },
    }
}

/// Decoding an encoded version event yields the event.
pub proof fn lemma_crate_version_round_trip(v: CrateVersionView)
    requires
        crate_version_encodable(v),
    ensures
        dec_crate_version(enc_crate_version(v)) == Some(v),
{
    let b = enc_crate_version(v);
    let l1 = enc_str(v.name).len() as int;
    let l2 = enc_str(v.version).len() as int;
    assert(b.subrange(0, l1) =~= enc_str(v.name));
    lemma_dec_str_at(b, 0, v.name);
    assert(b.subrange(l1, l1 + l2) =~= enc_str(v.version));
    lemma_dec_str_at(b, l1, v.version);
    assert(b[l1 + l2] == kind_byte(v.kind));
    assert(dec_kind(kind_byte(v.kind)) == Some(v.kind));
}

/// Re-encoding a decoded version event yields the original bytes.
pub proof fn lemma_crate_version_bytes_round_trip(b: Seq<u8>)
    requires
        dec_crate_version(b) is Some,
    ensures
        crate_version_encodable(dec_crate_version(b)->0),
        enc_crate_version(dec_crate_version(b)->0) =~= b,
{
    let v = dec_crate_version(b)->0;
    let (name, p1) = dec_str_at(b, 0)->0;
    lemma_str_at_canonical(b, 0);
    let (version, p2) = dec_str_at(b, p1)->0;
    lemma_str_at_canonical(b, p1);
    assert(kind_byte(v.kind) == b[p2]);
    assert(b.subrange(0, p1) + b.subrange(p1, p2) + seq![b[p2]] =~= b);
}

/// Encodes one observed version event.
pub fn encode_crate_version(v: &CrateVersion) -> (r: Vec<u8>)
    ensures
        r@ =~= enc_crate_version(v@),
        crate_version_encodable(v@),
{
    let mut out: Vec<u8> = Vec::new();
    encode_string(&mut out, v.name.as_str());
    encode_string(&mut out, v.version.as_str());
    let kb: u8 = match v.kind {
        ChangeKind::Added => 0,
        ChangeKind::Yanked => 1,
    };
    out.push(kb);
    out
}

/// Decodes one observed version event, as [`dec_crate_version`] reads it.
pub fn decode_crate_version(b: &Vec<u8>) -> (r: Option<CrateVersion>)
    ensures
        match r {
            Some(v) => dec_crate_version(b@) == Some(v@),
            None => dec_crate_version(b@) is None,
        },
{
    let (name, p1) = match decode_string_at(b, 0) {
        None => {
            return None;
        },
        Some(sp) => sp,
    };
    let (version, p2) = match decode_string_at(b, p1) {
        None => {
            return None;
        },
        Some(sp) => sp,
    };
    if b.len() - p2 != 1 {
        return None;
    }
    let kb = b[p2];
    let kind = if kb == 0 {
        ChangeKind::Added
    } else if kb == 1 {
        ChangeKind::Yanked
    } else {
        return None;
    };
    Some(CrateVersion { name, version, kind })
}

/// The concatenated encodings of a list of strings.
pub open spec fn enc_strs(vs: Seq<Seq<char>>) -> Seq<u8>
    decreases vs.len(),
{
    if vs.len() == 0 {
        Seq::empty()
    } else {
        enc_str(vs[0]) + enc_strs(vs.drop_first())
    }
}

/// Every string of the list fits its length word.
pub open spec fn strs_encodable(vs: Seq<Seq<char>>) -> bool {
    forall|i: int| 0 <= i < vs.len() ==> str_encodable(#[trigger] vs[i])
}

/// The encoding of a crate record: how many versions it has, then each
/// version in order.
pub open spec fn enc_crate(v: CrateView) -> Seq<u8> {
    u64_le(v.versions.len() as u64) + enc_strs(v.versions)
}

/// A crate record whose version count and versions fit the length words.
pub open spec fn crate_encodable(v: CrateView) -> bool {
    v.versions.len() < len_limit() && strs_encodable(v.versions)
}

/// Parses `n` consecutive encoded strings starting at `pos`.
pub open spec fn dec_strs_at(b: Seq<u8>, pos: int, n: nat) -> Option<(Seq<Seq<char>>, int)>
    decreases n,
{
    if n == 0 {
        Some((Seq::empty(), pos))
    } else {
        match dec_str_at(b, pos) {
            None => None,
            Some((s, p1)) => match dec_strs_at(b, p1, (n - 1) as nat) {
                None => None,
                Some((rest, p2)) => Some((seq![s] + rest, p2)),
            },
        }
    }
}

/// Parses a crate record.
pub open spec fn dec_crate(b: Seq<u8>) -> Option<CrateView> {
    if b.len() < 8 {
        None
    } else {
        let n = dec_u64(b.subrange(0, 8));
        match dec_strs_at(b, 8, n as nat) {
            None => None,
            Some((vs, p)) => {
                if p == b.len() {
                    Some(CrateView { versions: vs })
                } else {
                    None
                }
            },
        }
    }
}

/// Appending a string to a list appends its encoding.
pub proof fn lemma_enc_strs_push(vs: Seq<Seq<char>>, s: Seq<char>)
    ensures
        enc_strs(vs.push(s)) =~= enc_strs(vs) + enc_str(s),
    decreases vs.len(),
{
    if vs.len() == 0 {
        assert(vs.push(s)[0] == s);
        assert(vs.push(s).drop_first() =~= Seq::<Seq<char>>::empty());
        assert(enc_strs(vs.push(s)) == enc_str(s) + enc_strs(Seq::<Seq<char>>::empty()));
        assert(enc_strs(Seq::<Seq<char>>::empty()) =~= Seq::<u8>::empty());
        assert(enc_strs(vs.push(s)) =~= enc_strs(vs) + enc_str(s));
    } else {
        assert(vs.push(s)[0] == vs[0]);
        assert(vs.push(s).drop_first() =~= vs.drop_first().push(s));
        assert(enc_strs(vs.push(s)) == enc_str(vs[0]) + enc_strs(vs.drop_first().push(s)));
        lemma_enc_strs_push(vs.drop_first(), s);
        assert(enc_strs(vs.push(s)) =~= enc_strs(vs) + enc_str(s));
    }
}

/// An encoded list embedded in a larger sequence parses back to itself.
pub proof fn lemma_dec_strs_at(b: Seq<u8>, pos: int, vs: Seq<Seq<char>>)
    requires
        0 <= pos,
        strs_encodable(vs),
        pos + enc_strs(vs).len() <= b.len(),
        b.subrange(pos, pos + enc_strs(vs).len() as int) =~= enc_strs(vs),
    ensures
        dec_strs_at(b, pos, vs.len()) == Some((vs, pos + enc_strs(vs).len())),
    decreases vs.len(),
{
    if vs.len() == 0 {
        assert(vs =~= Seq::<Seq<char>>::empty());
    } else {
        let e0 = enc_str(vs[0]);
        let erest = enc_strs(vs.drop_first());
        let whole = enc_strs(vs);
        assert(whole =~= e0 + erest);
        assert forall|i: int| 0 <= i < e0.len() implies #[trigger] (b.subrange(
            pos,
            pos + e0.len() as int,
        )[i]) == e0[i] by {
            assert(b.subrange(pos, pos + whole.len() as int)[i] == whole[i]);
        }
        assert(b.subrange(pos, pos + e0.len() as int) =~= e0);
        lemma_dec_str_at(b, pos, vs[0]);
        let p1 = pos + e0.len() as int;
        assert forall|i: int| 0 <= i < erest.len() implies #[trigger] (b.subrange(
            p1,
            p1 + erest.len() as int,
        )[i]) == erest[i] by {
            assert(b.subrange(pos, pos + whole.len() as int)[e0.len() + i] == whole[e0.len() + i]);
        }
        assert(b.subrange(p1, p1 + erest.len() as int) =~= erest);
        lemma_dec_strs_at(b, p1, vs.drop_first());
        assert(seq![vs[0]] + vs.drop_first() =~= vs);
    }
}

/// Whatever parses as a string list came from exactly one encoding.
pub proof fn lemma_strs_at_canonical(b: Seq<u8>, pos: int, n: nat)
    requires
        0 <= pos <= b.len(),
        dec_strs_at(b, pos, n) is Some,
    ensures
        ({
            let (vs, p) = dec_strs_at(b, pos, n)->0;
            &&& pos <= p <= b.len()
            &&& vs.len() == n
            &&& strs_encodable(vs)
            &&& enc_strs(vs) =~= b.subrange(pos, p)
        }),
    decreases n,
{
    if n == 0 {
    } else {
        lemma_str_at_canonical(b, pos);
        let (s, p1) = dec_str_at(b, pos)->0;
        lemma_strs_at_canonical(b, p1, (n - 1) as nat);
        let (rest, p2) = dec_strs_at(b, p1, (n - 1) as nat)->0;
        let vs = seq![s] + rest;
        assert(vs[0] == s);
        assert(vs.drop_first() =~= rest);
        assert(enc_strs(vs) =~= enc_str(s) + enc_strs(rest));
        assert(b.subrange(pos, p1) + b.subrange(p1, p2) =~= b.subrange(pos, p2));
    }
}

/// Decoding an encoded crate record yields the record.
pub proof fn lemma_crate_round_trip(v: CrateView)
    requires
        crate_encodable(v),
    ensures
        dec_crate(enc_crate(v)) == Some(v),
{
    let b = enc_crate(v);
    let n = v.versions.len();
    assert(b.subrange(0, 8) =~= u64_le(n as u64));
    lemma_u64_round_trip(n as u64);
    assert(b.subrange(8, 8 + enc_strs(v.versions).len() as int) =~= enc_strs(v.versions));
    lemma_dec_strs_at(b, 8, v.versions);
}

/// Re-encoding a decoded crate record yields the original bytes.
pub proof fn lemma_crate_bytes_round_trip(b: Seq<u8>)
    requires
        dec_crate(b) is Some,
    ensures
        crate_encodable(dec_crate(b)->0),
        enc_crate(dec_crate(b)->0) =~= b,
{
    let n = dec_u64(b.subrange(0, 8));
    lemma_strs_at_canonical(b, 8, n as nat);
    lemma_u64_bytes_round_trip(b.subrange(0, 8));
    let (vs, p) = dec_strs_at(b, 8, n as nat)->0;
    assert(b.subrange(0, 8) + b.subrange(8, p) =~= b);
}

/// Encodes a crate record.
pub fn encode_crate(c: &Crate) -> (r: Vec<u8>)
    ensures
        r@ =~= enc_crate(c@),
        crate_encodable(c@),
{
    let mut out: Vec<u8> = Vec::new();
    let n = c.versions.len();
    encode_u64(&mut out, n as u64);
    let mut i: usize = 0;
    while i < n
        invariant
            n == c.versions.len(),
            i <= n,
            out@ =~= u64_le(n as u64) + enc_strs(c@.versions.take(i as int)),
            strs_encodable(c@.versions.take(i as int)),
        decreases n - i,
    {
        encode_string(&mut out, c.versions[i].as_str());
        proof {
            assert(c@.versions.take(i + 1) =~= c@.versions.take(i as int).push(
                c@.versions[i as int],
            ));
            lemma_enc_strs_push(c@.versions.take(i as int), c@.versions[i as int]);
        }
        i = i + 1;
    }
    proof {
        assert(c@.versions.take(n as int) =~= c@.versions);
    }
    out
}

/// Decodes a crate record, as [`dec_crate`] reads it.
pub fn decode_crate(b: &Vec<u8>) -> (r: Option<Crate>)
    ensures
        match r {
            Some(c) => dec_crate(b@) == Some(c@),
            None => dec_crate(b@) is None,
        },
{
    if b.len() < 8 {
        return None;
    }
    let n = decode_u64(b, 0);
    let mut vs: Vec<String> = Vec::new();
    let mut pos: usize = 8;
    let mut i: u64 = 0;
    while i < n
        invariant
            8 <= pos <= b@.len(),
            i <= n,
            vs@.len() == i,
            b@.len() >= 8,
            n == dec_u64(b@.subrange(0, 8)),
            dec_strs_at(b@, 8, n as nat) == match dec_strs_at(b@, pos as int, (n - i) as nat) {
                None => None::<(Seq<Seq<char>>, int)>,
                Some(rp) => Some((crate::model::strs_view(vs@) + rp.0, rp.1)),
            },
        decreases n - i,
    {
        match decode_string_at(b, pos) {
            None => {
                proof {
                    assert(dec_strs_at(b@, pos as int, (n - i) as nat) is None);
                }
                return None;
            },
            Some((s, p)) => {
                proof {
                    let k = (n - i) as nat;
                    let s_spec = s@;
                    let rest_view = dec_strs_at(b@, p as int, (k - 1) as nat);
                    assert(dec_strs_at(b@, pos as int, k) == match rest_view {
                        None => None::<(Seq<Seq<char>>, int)>,
                        Some(rp) => Some((seq![s_spec] + rp.0, rp.1)),
                    });
                    if rest_view is Some {
                        let rp = rest_view->0;
                        assert(crate::model::strs_view(vs@) + (seq![s_spec] + rp.0)
                            =~= crate::model::strs_view(vs@.push(s)) + rp.0);
                    }
                }
                vs.push(s);
                pos = p;
                i = i + 1;
            },
        }
    }
    proof {
        assert(dec_strs_at(b@, pos as int, 0) == Some((Seq::<Seq<char>>::empty(), pos as int)));
        assert(crate::model::strs_view(vs@) + Seq::<Seq<char>>::empty() =~= crate::model::strs_view(
            vs@,
        ));
    }
    if pos != b.len() {
        return None;
    }
    let c = Crate { versions: vs };
    proof {
        assert(dec_crate(b@)->0 =~= c@);
    }
    Some(c)
}

} // verus!
