//! Fixed-upper-bound binary codec for records.
//!
//! A record is laid out as a flat byte string: the identifier as eight
//! little-endian bytes, then each string field as a four-byte little-endian
//! length followed by that many UTF-8 bytes, with the ingredient list
//! prefixed by a four-byte element count. Encoding fails (rather than
//! truncating) when the result would exceed [`MAX_ENCODED_SIZE`] bytes;
//! decoding fails on any byte string that no in-bound record encodes to.

use vstd::prelude::*;
use vstd::bytes::{
    lemma_auto_spec_u32_to_from_le_bytes, lemma_auto_spec_u64_to_from_le_bytes,
    spec_u32_from_le_bytes, spec_u32_to_le_bytes, spec_u64_from_le_bytes, spec_u64_to_le_bytes,
    u32_from_le_bytes, u32_to_le_bytes, u64_from_le_bytes, u64_to_le_bytes,
};
use vstd::utf8::{
    decode_utf8, encode_utf8, encode_utf8_decode_utf8, encode_utf8_valid_utf8, valid_utf8,
};
use vstd::slice::{slice_subrange, slice_to_vec};
use crate::record::{Recipe, RecipeModel, StoreError};

verus! {

/// Largest number of bytes an encoded record may occupy.
pub const MAX_ENCODED_SIZE: usize = 1024;

/// One length-prefixed string field: a four-byte little-endian byte count,
/// then the string's UTF-8 bytes.
pub open spec fn spec_str_block(s: Seq<char>) -> Seq<u8> {
    spec_u32_to_le_bytes(encode_utf8(s).len() as u32) + encode_utf8(s)
}

/// The ingredient list, one string block per element, in order.
pub open spec fn spec_ingredients_bytes(l: Seq<Seq<char>>) -> Seq<u8>
    decreases l.len(),
{
    if l.len() == 0 {
        Seq::empty()
    } else {
        spec_str_block(l[0]) + spec_ingredients_bytes(l.drop_first())
    }
}

/// The encoded form of a record.
pub open spec fn spec_encode(r: RecipeModel) -> Seq<u8> {
    spec_u64_to_le_bytes(r.id) + spec_str_block(r.name) + spec_str_block(r.category)
        + spec_u32_to_le_bytes(r.ingredients.len() as u32) + spec_ingredients_bytes(r.ingredients)
        + spec_str_block(r.instructions)
}

/// Whether a record's encoded form is within the size bound.
pub open spec fn spec_fits(r: RecipeModel) -> bool {
    spec_encode(r).len() <= MAX_ENCODED_SIZE
}

/// Reads a four-byte little-endian integer at `pos`.
pub open spec fn parse_u32(b: Seq<u8>, pos: int) -> Option<(u32, int)> {
    if 0 <= pos && pos + 4 <= b.len() {
        Some((spec_u32_from_le_bytes(b.subrange(pos, pos + 4)), pos + 4))
    } else {
        None
    }
}

/// Reads an eight-byte little-endian integer at `pos`.
pub open spec fn parse_u64(b: Seq<u8>, pos: int) -> Option<(u64, int)> {
    if 0 <= pos && pos + 8 <= b.len() {
        Some((spec_u64_from_le_bytes(b.subrange(pos, pos + 8)), pos + 8))
    } else {
        None
    }
}

/// Reads one length-prefixed UTF-8 string at `pos`.
pub open spec fn parse_str(b: Seq<u8>, pos: int) -> Option<(Seq<char>, int)> {
    match parse_u32(b, pos) {
        None => None,
        Some((n, p)) => {
            if p + n <= b.len() && valid_utf8(b.subrange(p, p + n)) {
                Some((decode_utf8(b.subrange(p, p + n)), p + n))
            } else {
                None
            }
        },
    }
}

/// Reads `count` consecutive string blocks starting at `pos`.
pub open spec fn parse_ingredients(b: Seq<u8>, pos: int, count: int) -> Option<
    (Seq<Seq<char>>, int),
>
    decreases count,
{
    if count <= 0 {
        Some((Seq::empty(), pos))
    } else {
        match parse_str(b, pos) {
            None => None,
            Some((s, p)) => match parse_ingredients(b, p, count - 1) {
                None => None,
                Some((rest, p2)) => Some((seq![s] + rest, p2)),
            },
        }
    }
}

/// The record a byte string decodes to, if any: the fields in layout order,
/// with nothing left over.
pub open spec fn spec_decode(b: Seq<u8>) -> Option<RecipeModel> {
    match parse_u64(b, 0) {
        None => None,
        Some((id, p1)) => match parse_str(b, p1) {
            None => None,
            Some((name, p2)) => match parse_str(b, p2) {
                None => None,
                Some((category, p3)) => match parse_u32(b, p3) {
                    None => None,
                    Some((cnt, p4)) => match parse_ingredients(b, p4, cnt as int) {
                        None => None,
                        Some((ingredients, p5)) => match parse_str(b, p5) {
                            None => None,
                            Some((instructions, p6)) => if p6 == b.len() {
                                Some(RecipeModel { id, name, category, ingredients, instructions })
                            } else {
                                None
                            },
                        },
                    },
                },
            },
        },
    }
}

/// Every string block is at least four bytes, so the ingredient bytes are at
/// least four per element.
proof fn lemma_ingredients_min_len(l: Seq<Seq<char>>)
    ensures
        spec_ingredients_bytes(l).len() >= 4 * l.len(),
    decreases l.len(),
{
    lemma_auto_spec_u32_to_from_le_bytes();
    if l.len() > 0 {
        lemma_ingredients_min_len(l.drop_first());
    }
}

/// Appending one element appends its block at the end of the ingredient
/// bytes.
proof fn lemma_ingredients_bytes_snoc(l: Seq<Seq<char>>)
    requires
        l.len() > 0,
    ensures
        spec_ingredients_bytes(l) == spec_ingredients_bytes(l.drop_last()) + spec_str_block(
            l.last(),
        ),
    decreases l.len(),
{
    if l.len() == 1 {
        assert(l.drop_last() =~= Seq::empty());
        assert(l.drop_first() =~= Seq::empty());
        assert(spec_ingredients_bytes(l) =~= spec_ingredients_bytes(l.drop_last())
            + spec_str_block(l.last()));
    } else {
        let tail = l.drop_first();
        lemma_ingredients_bytes_snoc(tail);
        assert(tail.drop_last() =~= l.drop_last().drop_first());
        assert(tail.last() == l.last());
        assert(l.drop_last()[0] == l[0]);
        assert(spec_ingredients_bytes(l) =~= spec_ingredients_bytes(l.drop_last())
            + spec_str_block(l.last()));
    }
}

proof fn lemma_parse_u64_at(b: Seq<u8>, pos: int, x: u64)
    requires
        0 <= pos,
        pos + 8 <= b.len(),
        b.subrange(pos, pos + 8) == spec_u64_to_le_bytes(x),
    ensures
        parse_u64(b, pos) == Some((x, pos + 8)),
{
    lemma_auto_spec_u64_to_from_le_bytes();
}

proof fn lemma_parse_str_at(b: Seq<u8>, pos: int, s: Seq<char>)
    requires
        0 <= pos,
        encode_utf8(s).len() <= u32::MAX,
        pos + spec_str_block(s).len() <= b.len(),
        b.subrange(pos, pos + spec_str_block(s).len()) == spec_str_block(s),
    ensures
        parse_str(b, pos) == Some((s, pos + spec_str_block(s).len())),
{
    lemma_auto_spec_u32_to_from_le_bytes();
    broadcast use encode_utf8_valid_utf8, encode_utf8_decode_utf8;

    let n = encode_utf8(s).len() as int;
    let block = spec_str_block(s);
    assert(block.len() == 4 + n);
    lemma_subrange_at(b, pos, block, 0, 4);
    assert(block.subrange(0, 4) =~= spec_u32_to_le_bytes(n as u32));
    assert(b.subrange(pos, pos + 4) == block.subrange(0, 4));
    assert(spec_u32_from_le_bytes(b.subrange(pos, pos + 4)) == n as u32);
    assert((n as u32) as int == n);
    lemma_subrange_at(b, pos, block, 4, 4 + n);
    assert(block.subrange(4, 4 + n) =~= encode_utf8(s));
    assert(b.subrange(pos + 4, pos + 4 + n) == block.subrange(4, 4 + n));
}

/// Carving a window out of a known span of `b` gives the matching slice of
/// that span.
proof fn lemma_subrange_at(b: Seq<u8>, pos: int, whole: Seq<u8>, lo: int, hi: int)
    requires
        0 <= pos,
        pos + whole.len() <= b.len(),
        b.subrange(pos, pos + whole.len()) == whole,
        0 <= lo <= hi <= whole.len(),
    ensures
        b.subrange(pos + lo, pos + hi) == whole.subrange(lo, hi),
{
    assert forall|j: int|
        0 <= j < hi - lo implies b.subrange(pos + lo, pos + hi)[j] == whole.subrange(lo, hi)[j] by {
        assert(b.subrange(pos, pos + whole.len())[lo + j] == b[pos + (lo + j)]);
        assert(b.subrange(pos + lo, pos + hi)[j] == b[pos + lo + j]);
    }
    assert(b.subrange(pos + lo, pos + hi) =~= whole.subrange(lo, hi));
}

proof fn lemma_parse_ingredients_at(b: Seq<u8>, pos: int, l: Seq<Seq<char>>)
    requires
        0 <= pos,
        spec_ingredients_bytes(l).len() + 4 <= u32::MAX,
        pos + spec_ingredients_bytes(l).len() <= b.len(),
        b.subrange(pos, pos + spec_ingredients_bytes(l).len()) == spec_ingredients_bytes(l),
    ensures
        parse_ingredients(b, pos, l.len() as int) == Some(
            (l, pos + spec_ingredients_bytes(l).len()),
        ),
    decreases l.len(),
{
    if l.len() == 0 {
        assert(parse_ingredients(b, pos, 0) == Some((Seq::<Seq<char>>::empty(), pos)));
        assert(l =~= Seq::<Seq<char>>::empty());
    } else {
        lemma_auto_spec_u32_to_from_le_bytes();
        let whole = spec_ingredients_bytes(l);
        let block = spec_str_block(l[0]);
        let rest = spec_ingredients_bytes(l.drop_first());
        assert(whole == block + rest);
        lemma_ingredients_min_len(l.drop_first());
        lemma_subrange_at(b, pos, whole, 0, block.len() as int);
        assert(whole.subrange(0, block.len() as int) =~= block);
        assert(b.subrange(pos, pos + block.len() as int) == block);
        lemma_parse_str_at(b, pos, l[0]);
        let p = pos + block.len();
        lemma_subrange_at(b, pos, whole, block.len() as int, whole.len() as int);
        assert(whole.subrange(block.len() as int, whole.len() as int) =~= rest);
        assert(b.subrange(p, p + rest.len()) == rest);
        lemma_parse_ingredients_at(b, p, l.drop_first());
        assert(seq![l[0]] + l.drop_first() =~= l);
    }
}

/// Decoding inverts encoding: every in-bound record comes back unchanged.
pub proof fn lemma_round_trip(r: RecipeModel)
    requires
        spec_fits(r),
    ensures
        spec_decode(spec_encode(r)) == Some(r),
{
    lemma_auto_spec_u32_to_from_le_bytes();
    lemma_auto_spec_u64_to_from_le_bytes();
    let b = spec_encode(r);
    let idb = spec_u64_to_le_bytes(r.id);
    let nameb = spec_str_block(r.name);
    let catb = spec_str_block(r.category);
    let cntb = spec_u32_to_le_bytes(r.ingredients.len() as u32);
    let ingb = spec_ingredients_bytes(r.ingredients);
    let insb = spec_str_block(r.instructions);
    assert(b == idb + nameb + catb + cntb + ingb + insb);
    assert(b.len() == 8 + nameb.len() + catb.len() + 4 + ingb.len() + insb.len());
    lemma_ingredients_min_len(r.ingredients);

    let p1: int = 8;
    let p2 = p1 + nameb.len() as int;
    let p3 = p2 + catb.len() as int;
    let p4 = p3 + 4;
    let p5 = p4 + ingb.len() as int;
    let p6 = p5 + insb.len() as int;

    assert(b.subrange(0, p1) =~= idb);
    lemma_parse_u64_at(b, 0, r.id);

    assert(b.subrange(p1, p2) =~= nameb);
    lemma_parse_str_at(b, p1, r.name);

    assert(b.subrange(p2, p3) =~= catb);
    lemma_parse_str_at(b, p2, r.category);

    assert(b.subrange(p3, p4) =~= cntb);
    assert(parse_u32(b, p3) == Some((r.ingredients.len() as u32, p4)));
    assert((r.ingredients.len() as u32) as int == r.ingredients.len() as int);

    assert(b.subrange(p4, p5) =~= ingb);
    lemma_parse_ingredients_at(b, p4, r.ingredients);

    assert(b.subrange(p5, p6) =~= insb);
    lemma_parse_str_at(b, p5, r.instructions);

    assert(p6 == b.len());
}

/// Relies on `String::from_utf8`: it succeeds exactly on valid UTF-8 input
/// and then returns the characters that the bytes encode.
#[verifier::external_body]
fn string_from_utf8(b: Vec<u8>) -> (r: Option<String>)
    ensures
        r is Some <==> valid_utf8(b@),
        r matches Some(s) ==> s@ == decode_utf8(b@),
{
    String::from_utf8(b).ok()
}

/// Appends one length-prefixed string field, refusing to grow the buffer
/// past the size bound.
fn push_str_block(buf: &mut Vec<u8>, s: &str) -> (res: Result<(), StoreError>)
    requires
        old(buf)@.len() <= MAX_ENCODED_SIZE,
    ensures
        match res {
            Ok(_) => {
                &&& final(buf)@ == old(buf)@ + spec_str_block(s@)
                &&& final(buf)@.len() <= MAX_ENCODED_SIZE
            },
            Err(e) => {
                &&& e == StoreError::SizeExceeded
                &&& final(buf)@ == old(buf)@
                &&& old(buf)@.len() + spec_str_block(s@).len() > MAX_ENCODED_SIZE
            },
        },
{
    proof {
        lemma_auto_spec_u32_to_from_le_bytes();
    }
    let bytes_slice = s.as_bytes();
    if bytes_slice.len() > MAX_ENCODED_SIZE {
        return Err(StoreError::SizeExceeded);
    }
    if buf.len() + 4 + bytes_slice.len() > MAX_ENCODED_SIZE {
        return Err(StoreError::SizeExceeded);
    }
    let mut bytes = slice_to_vec(bytes_slice);
    let mut lenb = u32_to_le_bytes(bytes.len() as u32);
    buf.append(&mut lenb);
    buf.append(&mut bytes);
    Ok(())
}

/// Encodes a record, or reports that its encoded form would exceed
/// [`MAX_ENCODED_SIZE`] bytes.
pub fn encode(r: &Recipe) -> (res: Result<Vec<u8>, StoreError>)
    ensures
        match res {
            Ok(b) => {
                &&& b@ == spec_encode(r@)
                &&& b@.len() <= MAX_ENCODED_SIZE
            },
            Err(e) => {
                &&& e == StoreError::SizeExceeded
                &&& !spec_fits(r@)
            },
        },
{
    proof {
        lemma_auto_spec_u32_to_from_le_bytes();
        lemma_auto_spec_u64_to_from_le_bytes();
        lemma_ingredients_min_len(r@.ingredients);
    }
    let ghost total = spec_encode(r@);
    let mut buf: Vec<u8> = Vec::new();
    let mut idb = u64_to_le_bytes(r.id);
    buf.append(&mut idb);

    match push_str_block(&mut buf, r.name.as_str()) {
        Ok(_) => {},
        Err(e) => {
            return Err(e);
        },
    }
    match push_str_block(&mut buf, r.category.as_str()) {
        Ok(_) => {},
        Err(e) => {
            return Err(e);
        },
    }

    let cnt = r.ingredients.len();
    if cnt > MAX_ENCODED_SIZE || buf.len() + 4 > MAX_ENCODED_SIZE {
        return Err(StoreError::SizeExceeded);
    }
    let mut cntb = u32_to_le_bytes(cnt as u32);
    buf.append(&mut cntb);
    let ghost prefix = buf@;

    let mut i: usize = 0;
    while i < cnt
        invariant
            cnt == r.ingredients@.len(),
            i <= cnt,
            prefix == spec_u64_to_le_bytes(r@.id) + spec_str_block(r@.name) + spec_str_block(
                r@.category,
            ) + spec_u32_to_le_bytes(cnt as u32),
            buf@ == prefix + spec_ingredients_bytes(r@.ingredients.take(i as int)),
            buf@.len() <= MAX_ENCODED_SIZE,
            total == spec_encode(r@),
        decreases cnt - i,
    {
        proof {
            lemma_auto_spec_u32_to_from_le_bytes();
        }
        match push_str_block(&mut buf, r.ingredients[i].as_str()) {
            Ok(_) => {},
            Err(e) => {
                proof {
                    lemma_ingredients_split(r@.ingredients, i as int);
                }
                return Err(e);
            },
        }
        proof {
            lemma_ingredients_bytes_snoc(r@.ingredients.take(i + 1));
            assert(r@.ingredients.take(i + 1).drop_last() =~= r@.ingredients.take(i as int));
            assert(r@.ingredients.take(i + 1).last() == r@.ingredients[i as int]);
        }
        i = i + 1;
    }
    proof {
        assert(r@.ingredients.take(cnt as int) =~= r@.ingredients);
    }

    match push_str_block(&mut buf, r.instructions.as_str()) {
        Ok(_) => {},
        Err(e) => {
            return Err(e);
        },
    }
    proof {
        assert(buf@ =~= spec_encode(r@));
    }
    Ok(buf)
}

/// The bytes of a list prefix, the current block, and what follows together
/// make up the whole list's bytes, so each part is no longer than the whole.
proof fn lemma_ingredients_split(l: Seq<Seq<char>>, i: int)
    requires
        0 <= i < l.len(),
    ensures
        spec_ingredients_bytes(l).len() >= spec_ingredients_bytes(l.take(i)).len()
            + spec_str_block(l[i]).len(),
    decreases i,
{
    lemma_auto_spec_u32_to_from_le_bytes();
    if i == 0 {
        assert(l.take(0) =~= Seq::empty());
        lemma_ingredients_min_len(l.drop_first());
    } else {
        let tail = l.drop_first();
        lemma_ingredients_split(tail, i - 1);
        assert(tail.take(i - 1) =~= l.take(i).drop_first());
        assert(tail[i - 1] == l[i]);
        assert(spec_ingredients_bytes(l.take(i)) == spec_str_block(l.take(i)[0])
            + spec_ingredients_bytes(l.take(i).drop_first()));
        assert(l.take(i)[0] == l[0]);
    }
}

fn read_u32(b: &Vec<u8>, pos: usize) -> (res: Option<(u32, usize)>)
    requires
        pos <= b@.len(),
    ensures
        match res {
            Some((x, p)) => parse_u32(b@, pos as int) == Some((x, p as int)) && p <= b@.len(),
            None => parse_u32(b@, pos as int) is None,
        },
{
    if b.len() - pos >= 4 {
        let s = slice_subrange(b.as_slice(), pos, pos + 4);
        Some((u32_from_le_bytes(s), pos + 4))
    } else {
        None
    }
}

fn read_u64(b: &Vec<u8>, pos: usize) -> (res: Option<(u64, usize)>)
    requires
        pos <= b@.len(),
    ensures
        match res {
            Some((x, p)) => parse_u64(b@, pos as int) == Some((x, p as int)) && p <= b@.len(),
            None => parse_u64(b@, pos as int) is None,
        },
{
    if b.len() - pos >= 8 {
        let s = slice_subrange(b.as_slice(), pos, pos + 8);
        Some((u64_from_le_bytes(s), pos + 8))
    } else {
        None
    }
}

fn read_str(b: &Vec<u8>, pos: usize) -> (res: Option<(String, usize)>)
    requires
        pos <= b@.len(),
    ensures
        match res {
            Some((s, p)) => parse_str(b@, pos as int) == Some((s@, p as int)) && p <= b@.len(),
            None => parse_str(b@, pos as int) is None,
        },
{
    match read_u32(b, pos) {
        None => None,
        Some((n32, p)) => {
            let n = n32 as usize;
            if b.len() - p >= n {
                let sl = slice_subrange(b.as_slice(), p, p + n);
                let v = slice_to_vec(sl);
                match string_from_utf8(v) {
                    Some(s) => Some((s, p + n)),
                    None => None,
                }
            } else {
                None
            }
        },
    }
}

/// Decodes a record from its byte form, or reports corruption when the
/// bytes are not an encoding.
#[verifier::loop_isolation(false)]
pub fn decode(bytes: &Vec<u8>) -> (res: Result<Recipe, StoreError>)
    ensures
        match res {
            Ok(r) => spec_decode(bytes@) == Some(r@),
            Err(e) => {
                &&& e == StoreError::Corrupted
                &&& spec_decode(bytes@) is None
            },
        },
{
    let (id, p1) = match read_u64(bytes, 0) {
        Some(v) => v,
        None => {
            return Err(StoreError::Corrupted);
        },
    };
    let (name, p2) = match read_str(bytes, p1) {
        Some(v) => v,
        None => {
            return Err(StoreError::Corrupted);
        },
    };
    let (category, p3) = match read_str(bytes, p2) {
        Some(v) => v,
        None => {
            return Err(StoreError::Corrupted);
        },
    };
    let (cnt, p4) = match read_u32(bytes, p3) {
        Some(v) => v,
        None => {
            return Err(StoreError::Corrupted);
        },
    };

    let mut ings: Vec<String> = Vec::new();
    let mut pos = p4;
    let mut i: u32 = 0;
    while i < cnt
        invariant
            i <= cnt,
            pos <= bytes@.len(),
            parse_ingredients(bytes@, p4 as int, cnt as int) == (match parse_ingredients(
                bytes@,
                pos as int,
                cnt - i,
            ) {
                Some((rest, p)) => Some((ings.deep_view() + rest, p)),
                None => None::<(Seq<Seq<char>>, int)>,
            }),
        decreases cnt - i,
    {
        match read_str(bytes, pos) {
            Some((s, p)) => {
                proof {
                    assert(parse_ingredients(bytes@, pos as int, cnt - i) == (
                    match parse_ingredients(bytes@, p as int, cnt - i - 1) {
                        Some((rest, p2)) => Some((seq![s@] + rest, p2)),
                        None => None::<(Seq<Seq<char>>, int)>,
                    }));
                }
                let ghost old_ings = ings.deep_view();
                ings.push(s);
                proof {
                    assert(ings.deep_view() =~= old_ings.push(s@));
                    assert(forall|rest: Seq<Seq<char>>|
                        (old_ings.push(s@) + rest) =~= (old_ings + (#[trigger] (seq![s@] + rest))));
                }
                pos = p;
                i = i + 1;
            },
            None => {
                proof {
                    assert(parse_ingredients(bytes@, pos as int, cnt - i) is None);
                    assert(parse_ingredients(bytes@, p4 as int, cnt as int) is None);
                    assert(spec_decode(bytes@) is None);
                }
                return Err(StoreError::Corrupted);
            },
        }
    }
    proof {
        assert(parse_ingredients(bytes@, pos as int, 0) == Some(
            (Seq::<Seq<char>>::empty(), pos as int),
        ));
        assert(ings.deep_view() + Seq::<Seq<char>>::empty() =~= ings.deep_view());
    }

    let (instructions, p6) = match read_str(bytes, pos) {
        Some(v) => v,
        None => {
            return Err(StoreError::Corrupted);
        },
    };
    if p6 != bytes.len() {
        return Err(StoreError::Corrupted);
    }
    let r = Recipe { id, name, category, ingredients: ings, instructions };
    proof {
        assert(r@ =~= (match spec_decode(bytes@) {
            Some(m) => m,
            None => r@,
        }));
    }
    Ok(r)
}

} // verus!
