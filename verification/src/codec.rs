//! Persistence: the full world snapshot as one opaque byte blob.
//!
//! Every encoder appends the byte form of one value; every decoder's
//! contract says that on any stream starting with the encoding of a value it
//! returns exactly that value and consumes exactly its bytes. Chained
//! together they make the round trip exact: deserializing a serialized world
//! yields a world equal in every field.

use vstd::prelude::*;
use vstd::utf8::{encode_utf8, encode_utf8_valid_utf8, encode_utf8_decode_utf8};
use vstd::slice::slice_index_get;
use crate::color::Color;
use crate::game::{Game, Messages, LevelMap, Tile};
use crate::object::{Object, Fighter, Ai, DeathCallBack, Item};
use crate::text::string_from_utf8;

verus! {

/// Little-endian bytes of one 32-bit value.
pub open spec fn enc_u32(v: u32) -> Seq<u8> {
    seq![
        (v % 256) as u8,
        ((v / 256) % 256) as u8,
        ((v / 65536) % 256) as u8,
        ((v / 16777216) % 256) as u8,
    ]
}

/// Little-endian bytes of one 64-bit value, low word first.
pub open spec fn enc_u64(v: u64) -> Seq<u8> {
    enc_u32((v % 4294967296) as u32) + enc_u32((v / 4294967296) as u32)
}

/// A 32-bit signed value, encoded through its unsigned bit pattern.
pub open spec fn enc_i32(v: i32) -> Seq<u8> {
    enc_u32(v as u32)
}

pub open spec fn enc_bool(v: bool) -> Seq<u8> {
    seq![if v { 1u8 } else { 0u8 }]
}

pub open spec fn enc_char(v: char) -> Seq<u8> {
    enc_u32(v as u32)
}

pub open spec fn enc_color(v: Color) -> Seq<u8> {
    seq![v.r, v.g, v.b]
}

pub open spec fn enc_tile(v: Tile) -> Seq<u8> {
    enc_bool(v.blocked) + (enc_bool(v.block_sight) + enc_bool(v.explored))
}

pub open spec fn enc_policy(v: DeathCallBack) -> Seq<u8> {
    match v {
        DeathCallBack::Player => seq![0u8],
        DeathCallBack::Monster => seq![1u8],
    }
}

pub open spec fn enc_fighter(v: Fighter) -> Seq<u8> {
    enc_i32(v.max_hp) + (enc_i32(v.hp) + (enc_i32(v.defense) + (enc_i32(v.power) + enc_policy(
        v.on_death,
    ))))
}

pub open spec fn enc_item(v: Item) -> Seq<u8> {
    match v {
        Item::Heal => seq![0u8],
        Item::Lightning => seq![1u8],
        Item::Confuse => seq![2u8],
    }
}

/// Concatenation is associative.
proof fn assoc3(a: Seq<u8>, b: Seq<u8>, c: Seq<u8>)
    ensures
        (a + b) + c =~= a + (b + c),
{
}

/// Splitting a concatenation at the front of a stream suffix.
proof fn lemma_concat_prefix(s: Seq<u8>, a: Seq<u8>, b: Seq<u8>, pos: int)
    requires
        0 <= pos <= s.len(),
        (a + b).is_prefix_of(s.skip(pos)),
    ensures
        a.is_prefix_of(s.skip(pos)),
        pos + a.len() + b.len() <= s.len(),
        b.is_prefix_of(s.skip(pos + a.len())),
{
    let t = s.skip(pos);
    assert(a =~= t.subrange(0, a.len() as int)) by {
        assert forall|i: int| 0 <= i < a.len() implies a[i] == t[i] by {
            assert((a + b)[i] == a[i]);
            assert((a + b)[i] == t[i]);
        }
    }
    let u = s.skip(pos + a.len());
    assert(b =~= u.subrange(0, b.len() as int)) by {
        assert forall|i: int| 0 <= i < b.len() implies b[i] == u[i] by {
            assert((a + b)[a.len() + i] == b[i]);
            assert((a + b)[a.len() + i] == t[a.len() + i]);
            assert(t[a.len() + i] == s[pos + a.len() + i]);
            assert(u[i] == s[pos + a.len() + i]);
        }
    }
}

fn put_u32(out: &mut Vec<u8>, v: u32)
    ensures
        final(out)@ == old(out)@ + enc_u32(v),
{
    let ghost pre = out@;
    out.push((v % 256) as u8);
    out.push(((v / 256) % 256) as u8);
    out.push(((v / 65536) % 256) as u8);
    out.push(((v / 16777216) % 256) as u8);
    proof {
        assert(out@ =~= pre + enc_u32(v));
    }
}

fn get_u32(bytes: &Vec<u8>, pos: usize) -> (r: Option<(u32, usize)>)
    requires
        pos <= bytes@.len(),
    ensures
        r matches Some(p) ==> pos < p.1 <= bytes@.len(),
        forall|v: u32|
            (#[trigger] enc_u32(v)).is_prefix_of(bytes@.skip(pos as int)) ==> (r matches Some(p)
                && p.0 == v && p.1 == pos + 4),
{
    if bytes.len() - pos >= 4 {
        let k0 = bytes[pos];
        let k1 = bytes[pos + 1];
        let k2 = bytes[pos + 2];
        let k3 = bytes[pos + 3];
        let b0 = k0 as u32;
        let b1 = k1 as u32;
        let b2 = k2 as u32;
        let b3 = k3 as u32;
        let v = b0 + 256 * b1 + 65536 * b2 + 16777216 * b3;
        proof {
            assert forall|vv: u32|
                (#[trigger] enc_u32(vv)).is_prefix_of(bytes@.skip(pos as int)) implies v == vv by {
                let t = bytes@.skip(pos as int);
                assert(enc_u32(vv)[0] == t[0] && enc_u32(vv)[1] == t[1] && enc_u32(vv)[2] == t[2]
                    && enc_u32(vv)[3] == t[3]);
                assert(t[0] == bytes@[pos as int] && t[1] == bytes@[pos + 1] && t[2] == bytes@[pos
                    + 2] && t[3] == bytes@[pos + 3]);
                assert(vv == (vv % 256) + 256 * ((vv / 256) % 256) + 65536 * ((vv / 65536) % 256)
                    + 16777216 * ((vv / 16777216) % 256)) by (bit_vector);
            }
        }
        Some((v, pos + 4))
    } else {
        proof {
            assert forall|v: u32| !(#[trigger] enc_u32(v)).is_prefix_of(
                bytes@.skip(pos as int),
            ) by {
                assert(enc_u32(v).len() == 4);
                assert(bytes@.skip(pos as int).len() < 4);
            }
        }
        None
    }
}

fn put_u64(out: &mut Vec<u8>, v: u64)
    ensures
        final(out)@ == old(out)@ + enc_u64(v),
{
    let ghost pre = out@;
    put_u32(out, (v % 4294967296) as u32);
    put_u32(out, (v / 4294967296) as u32);
    proof {
        assert(out@ =~= pre + enc_u64(v));
    }
}

fn get_u64(bytes: &Vec<u8>, pos: usize) -> (r: Option<(u64, usize)>)
    requires
        pos <= bytes@.len(),
    ensures
        r matches Some(p) ==> pos < p.1 <= bytes@.len(),
        forall|v: u64|
            (#[trigger] enc_u64(v)).is_prefix_of(bytes@.skip(pos as int)) ==> (r matches Some(p)
                && p.0 == v && p.1 == pos + 8),
{
    let lo = get_u32(bytes, pos);
    if let Some((lo, p1)) = lo {
        let hi = get_u32(bytes, p1);
        if let Some((hi, p2)) = hi {
            let v: u64 = lo as u64 + 4294967296 * (hi as u64);
            proof {
                assert forall|vv: u64|
                    (#[trigger] enc_u64(vv)).is_prefix_of(bytes@.skip(pos as int)) implies (v == vv
                    && p2 == pos + 8) by {
                    lemma_concat_prefix(
                        bytes@,
                        enc_u32((vv % 4294967296) as u32),
                        enc_u32((vv / 4294967296) as u32),
                        pos as int,
                    );
                    assert(lo == (vv % 4294967296) as u32);
                    assert(hi == (vv / 4294967296) as u32);
                    assert(vv == (vv % 4294967296) + 4294967296 * (vv / 4294967296))
                        by (bit_vector);
                }
            }
            Some((v, p2))
        } else {
            proof {
                assert forall|vv: u64| !(#[trigger] enc_u64(vv)).is_prefix_of(
                    bytes@.skip(pos as int),
                ) by {
                    if enc_u64(vv).is_prefix_of(bytes@.skip(pos as int)) {
                        lemma_concat_prefix(
                            bytes@,
                            enc_u32((vv % 4294967296) as u32),
                            enc_u32((vv / 4294967296) as u32),
                            pos as int,
                        );
                        assert(false);
                    }
                }
            }
            None
        }
    } else {
        proof {
            assert forall|vv: u64| !(#[trigger] enc_u64(vv)).is_prefix_of(
                bytes@.skip(pos as int),
            ) by {
                if enc_u64(vv).is_prefix_of(bytes@.skip(pos as int)) {
                    lemma_concat_prefix(
                        bytes@,
                        enc_u32((vv % 4294967296) as u32),
                        enc_u32((vv / 4294967296) as u32),
                        pos as int,
                    );
                    assert(false);
                }
            }
        }
        None
    }
}

fn put_i32(out: &mut Vec<u8>, v: i32)
    ensures
        final(out)@ == old(out)@ + enc_i32(v),
{
    put_u32(out, v as u32);
}

fn get_i32(bytes: &Vec<u8>, pos: usize) -> (r: Option<(i32, usize)>)
    requires
        pos <= bytes@.len(),
    ensures
        r matches Some(p) ==> pos < p.1 <= bytes@.len(),
        forall|v: i32|
            (#[trigger] enc_i32(v)).is_prefix_of(bytes@.skip(pos as int)) ==> (r matches Some(p)
                && p.0 == v && p.1 == pos + 4),
{
    let r = get_u32(bytes, pos);
    if let Some((u, p1)) = r {
        proof {
            assert forall|v: i32|
                (#[trigger] enc_i32(v)).is_prefix_of(bytes@.skip(pos as int)) implies (u as i32)
                == v by {
                assert(u == v as u32);
                assert((v as u32) as i32 == v) by (bit_vector);
            }
        }
        Some((u as i32, p1))
    } else {
        None
    }
}

fn put_bool(out: &mut Vec<u8>, v: bool)
    ensures
        final(out)@ == old(out)@ + enc_bool(v),
{
    let ghost pre = out@;
    out.push(if v {
        1u8
    } else {
        0u8
    });
    proof {
        assert(out@ =~= pre + enc_bool(v));
    }
}

fn get_bool(bytes: &Vec<u8>, pos: usize) -> (r: Option<(bool, usize)>)
    requires
        pos <= bytes@.len(),
    ensures
        r matches Some(p) ==> pos < p.1 <= bytes@.len(),
        forall|v: bool|
            (#[trigger] enc_bool(v)).is_prefix_of(bytes@.skip(pos as int)) ==> (r matches Some(p)
                && p.0 == v && p.1 == pos + 1),
{
    if bytes.len() - pos >= 1 {
        let b = bytes[pos];
        proof {
            assert forall|v: bool|
                (#[trigger] enc_bool(v)).is_prefix_of(bytes@.skip(pos as int)) implies (if v {
                1u8
            } else {
                0u8
            }) == b by {
                let t = bytes@.skip(pos as int);
                assert(enc_bool(v) == t.subrange(0, 1));
                assert(t.subrange(0, 1)[0] == t[0]);
                assert(t[0] == b);
            }
        }
        if b == 0 {
            Some((false, pos + 1))
        } else if b == 1 {
            Some((true, pos + 1))
        } else {
            None
        }
    } else {
        proof {
            assert forall|v: bool| !(#[trigger] enc_bool(v)).is_prefix_of(
                bytes@.skip(pos as int),
            ) by {
                assert(bytes@.skip(pos as int).len() < 1);
            }
        }
        None
    }
}

/// Any index of an encoding at the front of a stream suffix reads through.
proof fn lemma_prefix_index(s: Seq<u8>, pos: int, e: Seq<u8>, i: int)
    requires
        0 <= pos <= s.len(),
        e.is_prefix_of(s.skip(pos)),
        0 <= i < e.len(),
    ensures
        pos + e.len() <= s.len(),
        e[i] == s[pos + i],
{
    assert(e[i] == s.skip(pos).subrange(0, e.len() as int)[i]);
    assert(s.skip(pos).subrange(0, e.len() as int)[i] == s.skip(pos)[i]);
    assert(s.skip(pos)[i] == s[pos + i]);
}

/// Relies on `char::from_u32`: `Some` exactly on Unicode scalar values,
/// returning the character with that code point.
#[verifier::external_body]
fn char_from_u32(u: u32) -> (r: Option<char>)
    ensures
        r is Some <==> vstd::utf8::is_scalar(u),
        r matches Some(c) ==> c as u32 == u,
{
    char::from_u32(u)
}

fn put_char(out: &mut Vec<u8>, v: char)
    ensures
        final(out)@ == old(out)@ + enc_char(v),
{
    put_u32(out, v as u32);
}

fn get_char(bytes: &Vec<u8>, pos: usize) -> (r: Option<(char, usize)>)
    requires
        pos <= bytes@.len(),
    ensures
        r matches Some(p) ==> pos < p.1 <= bytes@.len(),
        forall|v: char|
            (#[trigger] enc_char(v)).is_prefix_of(bytes@.skip(pos as int)) ==> (r matches Some(p)
                && p.0 == v && p.1 == pos + 4),
{
    let u = get_u32(bytes, pos);
    if let Some((u, p1)) = u {
        let c = char_from_u32(u);
        if let Some(c) = c {
            proof {
                assert forall|v: char|
                    (#[trigger] enc_char(v)).is_prefix_of(bytes@.skip(pos as int)) implies c
                    == v by {
                    assert(u == v as u32);
                    vstd::utf8::char_u32_cast(c, c as u32);
                    vstd::utf8::char_u32_cast(v, v as u32);
                }
            }
            Some((c, p1))
        } else {
            proof {
                assert forall|v: char| !(#[trigger] enc_char(v)).is_prefix_of(
                    bytes@.skip(pos as int),
                ) by {
                    if enc_char(v).is_prefix_of(bytes@.skip(pos as int)) {
                        vstd::utf8::char_is_scalar(v);
                        assert(false);
                    }
                }
            }
            None
        }
    } else {
        None
    }
}

fn put_color(out: &mut Vec<u8>, v: Color)
    ensures
        final(out)@ == old(out)@ + enc_color(v),
{
    let ghost pre = out@;
    out.push(v.r);
    out.push(v.g);
    out.push(v.b);
    proof {
        assert(out@ =~= pre + enc_color(v));
    }
}

fn get_color(bytes: &Vec<u8>, pos: usize) -> (r: Option<(Color, usize)>)
    requires
        pos <= bytes@.len(),
    ensures
        r matches Some(p) ==> pos < p.1 <= bytes@.len(),
        forall|v: Color|
            (#[trigger] enc_color(v)).is_prefix_of(bytes@.skip(pos as int)) ==> (r matches Some(p)
                && p.0 == v && p.1 == pos + 3),
{
    if bytes.len() - pos >= 3 {
        let cr = bytes[pos];
        let cg = bytes[pos + 1];
        let cb = bytes[pos + 2];
        proof {
            assert forall|v: Color|
                (#[trigger] enc_color(v)).is_prefix_of(bytes@.skip(pos as int)) implies v == (Color {
                r: cr,
                g: cg,
                b: cb,
            }) by {
                lemma_prefix_index(bytes@, pos as int, enc_color(v), 0);
                lemma_prefix_index(bytes@, pos as int, enc_color(v), 1);
                lemma_prefix_index(bytes@, pos as int, enc_color(v), 2);
            }
        }
        Some((Color { r: cr, g: cg, b: cb }, pos + 3))
    } else {
        None
    }
}

fn put_tile(out: &mut Vec<u8>, v: Tile)
    ensures
        final(out)@ == old(out)@ + enc_tile(v),
{
    let ghost pre = out@;
    put_bool(out, v.blocked);
    put_bool(out, v.block_sight);
    put_bool(out, v.explored);
    proof {
        assert(out@ =~= pre + enc_tile(v));
    }
}

fn get_tile(bytes: &Vec<u8>, pos: usize) -> (r: Option<(Tile, usize)>)
    requires
        pos <= bytes@.len(),
    ensures
        r matches Some(p) ==> pos < p.1 <= bytes@.len(),
        forall|v: Tile|
            (#[trigger] enc_tile(v)).is_prefix_of(bytes@.skip(pos as int)) ==> (r matches Some(p)
                && p.0 == v && p.1 == pos + 3),
{
    let b0 = get_bool(bytes, pos);
    if let Some((blocked, p1)) = b0 {
        let b1 = get_bool(bytes, p1);
        if let Some((block_sight, p2)) = b1 {
            let b2 = get_bool(bytes, p2);
            if let Some((explored, p3)) = b2 {
                proof {
                    assert forall|v: Tile|
                        (#[trigger] enc_tile(v)).is_prefix_of(bytes@.skip(pos as int)) implies (v
                        == (Tile { blocked, block_sight, explored }) && p3 == pos + 3) by {
                        lemma_concat_prefix(
                            bytes@,
                            enc_bool(v.blocked),
                            enc_bool(v.block_sight) + enc_bool(v.explored),
                            pos as int,
                        );
                        lemma_concat_prefix(
                            bytes@,
                            enc_bool(v.block_sight),
                            enc_bool(v.explored),
                            pos + 1,
                        );
                    }
                }
                Some((Tile { blocked, block_sight, explored }, p3))
            } else {
                proof {
                    assert forall|v: Tile| !(#[trigger] enc_tile(v)).is_prefix_of(
                        bytes@.skip(pos as int),
                    ) by {
                        if enc_tile(v).is_prefix_of(bytes@.skip(pos as int)) {
                            tile_splits(bytes@, pos as int, v);
                            assert(false);
                        }
                    }
                }
                None
            }
        } else {
            proof {
                assert forall|v: Tile| !(#[trigger] enc_tile(v)).is_prefix_of(
                    bytes@.skip(pos as int),
                ) by {
                    if enc_tile(v).is_prefix_of(bytes@.skip(pos as int)) {
                        tile_splits(bytes@, pos as int, v);
                        assert(false);
                    }
                }
            }
            None
        }
    } else {
        proof {
            assert forall|v: Tile| !(#[trigger] enc_tile(v)).is_prefix_of(
                bytes@.skip(pos as int),
            ) by {
                if enc_tile(v).is_prefix_of(bytes@.skip(pos as int)) {
                    tile_splits(bytes@, pos as int, v);
                    assert(false);
                }
            }
        }
        None
    }
}

/// Split one tile encoding at the front of a stream suffix into its three
/// flags, each at its own offset.
proof fn tile_splits(s: Seq<u8>, pos: int, v: Tile)
    requires
        0 <= pos <= s.len(),
        enc_tile(v).is_prefix_of(s.skip(pos)),
    ensures
        enc_bool(v.blocked).is_prefix_of(s.skip(pos)),
        enc_bool(v.block_sight).is_prefix_of(s.skip(pos + 1)),
        enc_bool(v.explored).is_prefix_of(s.skip(pos + 2)),
        enc_tile(v).len() == 3,
{
    lemma_concat_prefix(s, enc_bool(v.blocked), enc_bool(v.block_sight) + enc_bool(v.explored), pos);
    lemma_concat_prefix(s, enc_bool(v.block_sight), enc_bool(v.explored), pos + 1);
}

fn put_policy(out: &mut Vec<u8>, v: DeathCallBack)
    ensures
        final(out)@ == old(out)@ + enc_policy(v),
{
    let ghost pre = out@;
    match v {
        DeathCallBack::Player => out.push(0u8),
        DeathCallBack::Monster => out.push(1u8),
    }
    proof {
        assert(out@ =~= pre + enc_policy(v));
    }
}

fn get_policy(bytes: &Vec<u8>, pos: usize) -> (r: Option<(DeathCallBack, usize)>)
    requires
        pos <= bytes@.len(),
    ensures
        r matches Some(p) ==> pos < p.1 <= bytes@.len(),
        forall|v: DeathCallBack|
            (#[trigger] enc_policy(v)).is_prefix_of(bytes@.skip(pos as int)) ==> (r matches Some(p)
                && p.0 == v && p.1 == pos + 1),
{
    if bytes.len() - pos >= 1 {
        let b = bytes[pos];
        proof {
            assert forall|v: DeathCallBack|
                (#[trigger] enc_policy(v)).is_prefix_of(bytes@.skip(pos as int)) implies enc_policy(
                v,
            )[0] == b by {
                lemma_prefix_index(bytes@, pos as int, enc_policy(v), 0);
            }
        }
        if b == 0 {
            Some((DeathCallBack::Player, pos + 1))
        } else if b == 1 {
            Some((DeathCallBack::Monster, pos + 1))
        } else {
            None
        }
    } else {
        None
    }
}

fn put_item(out: &mut Vec<u8>, v: Item)
    ensures
        final(out)@ == old(out)@ + enc_item(v),
{
    let ghost pre = out@;
    match v {
        Item::Heal => out.push(0u8),
        Item::Lightning => out.push(1u8),
        Item::Confuse => out.push(2u8),
    }
    proof {
        assert(out@ =~= pre + enc_item(v));
    }
}

fn get_item(bytes: &Vec<u8>, pos: usize) -> (r: Option<(Item, usize)>)
    requires
        pos <= bytes@.len(),
    ensures
        r matches Some(p) ==> pos < p.1 <= bytes@.len(),
        forall|v: Item|
            (#[trigger] enc_item(v)).is_prefix_of(bytes@.skip(pos as int)) ==> (r matches Some(p)
                && p.0 == v && p.1 == pos + 1),
{
    if bytes.len() - pos >= 1 {
        let b = bytes[pos];
        proof {
            assert forall|v: Item|
                (#[trigger] enc_item(v)).is_prefix_of(bytes@.skip(pos as int)) implies enc_item(
                v,
            )[0] == b by {
                lemma_prefix_index(bytes@, pos as int, enc_item(v), 0);
            }
        }
        if b == 0 {
            Some((Item::Heal, pos + 1))
        } else if b == 1 {
            Some((Item::Lightning, pos + 1))
        } else if b == 2 {
            Some((Item::Confuse, pos + 1))
        } else {
            None
        }
    } else {
        None
    }
}

fn put_fighter(out: &mut Vec<u8>, v: &Fighter)
    ensures
        final(out)@ == old(out)@ + enc_fighter(*v),
{
    let ghost pre = out@;
    put_i32(out, v.max_hp);
    put_i32(out, v.hp);
    put_i32(out, v.defense);
    put_i32(out, v.power);
    put_policy(out, v.on_death);
    proof {
        assert(out@ =~= pre + enc_fighter(*v));
    }
}

#[verifier::rlimit(60)]
fn get_fighter(bytes: &Vec<u8>, pos: usize) -> (r: Option<(Fighter, usize)>)
    requires
        pos <= bytes@.len(),
    ensures
        r matches Some(p) ==> pos < p.1 <= bytes@.len(),
        forall|v: Fighter|
            (#[trigger] enc_fighter(v)).is_prefix_of(bytes@.skip(pos as int)) ==> (r matches Some(
                p,
            ) && p.0 == v && p.1 == pos + enc_fighter(v).len()),
{
    let r0 = get_i32(bytes, pos);
    if let Some((max_hp, p1)) = r0 {
        let r1 = get_i32(bytes, p1);
        if let Some((hp, p2)) = r1 {
            let r2 = get_i32(bytes, p2);
            if let Some((defense, p3)) = r2 {
                let r3 = get_i32(bytes, p3);
                if let Some((power, p4)) = r3 {
                    let r4 = get_policy(bytes, p4);
                    if let Some((on_death, p5)) = r4 {
                        proof {
                            assert forall|v: Fighter|
                                (#[trigger] enc_fighter(v)).is_prefix_of(
                                    bytes@.skip(pos as int),
                                ) implies (v == (Fighter { max_hp, hp, defense, power, on_death })
                                && p5 == pos + enc_fighter(v).len()) by {
                                fighter_splits(bytes@, pos as int, v);
                            }
                        }
                        return Some((Fighter { max_hp, hp, defense, power, on_death }, p5));
                    }
                }
            }
        }
    }
    proof {
        assert forall|v: Fighter| !(#[trigger] enc_fighter(v)).is_prefix_of(
            bytes@.skip(pos as int),
        ) by {
            if enc_fighter(v).is_prefix_of(bytes@.skip(pos as int)) {
                fighter_splits(bytes@, pos as int, v);
                assert(false);
            }
        }
    }
    None
}

/// Split one fighter encoding at the front of a stream suffix into its five
/// fields, each at its own offset.
proof fn fighter_splits(s: Seq<u8>, pos: int, v: Fighter)
    requires
        0 <= pos <= s.len(),
        enc_fighter(v).is_prefix_of(s.skip(pos)),
    ensures
        enc_i32(v.max_hp).is_prefix_of(s.skip(pos)),
        enc_i32(v.hp).is_prefix_of(s.skip(pos + 4)),
        enc_i32(v.defense).is_prefix_of(s.skip(pos + 8)),
        enc_i32(v.power).is_prefix_of(s.skip(pos + 12)),
        enc_policy(v.on_death).is_prefix_of(s.skip(pos + 16)),
        enc_fighter(v).len() == 17,
{
    lemma_concat_prefix(
        s,
        enc_i32(v.max_hp),
        enc_i32(v.hp) + (enc_i32(v.defense) + (enc_i32(v.power) + enc_policy(v.on_death))),
        pos,
    );
    lemma_concat_prefix(
        s,
        enc_i32(v.hp),
        enc_i32(v.defense) + (enc_i32(v.power) + enc_policy(v.on_death)),
        pos + 4,
    );
    lemma_concat_prefix(s, enc_i32(v.defense), enc_i32(v.power) + enc_policy(v.on_death), pos + 8);
    lemma_concat_prefix(s, enc_i32(v.power), enc_policy(v.on_death), pos + 12);
}

/// Text as its UTF-8 byte length followed by the bytes themselves.
pub open spec fn enc_str(s: Seq<char>) -> Seq<u8> {
    enc_u64(encode_utf8(s).len() as u64) + encode_utf8(s)
}

/// The byte length must fit the length field for the encoding to be faithful.
pub open spec fn str_len_ok(s: Seq<char>) -> bool {
    encode_utf8(s).len() <= u64::MAX
}

fn put_str(out: &mut Vec<u8>, v: &str)
    ensures
        final(out)@ == old(out)@ + enc_str(v@),
        str_len_ok(v@),
{
    let ghost pre = out@;
    let bs: &[u8] = v.as_bytes();
    put_u64(out, bs.len() as u64);
    let ghost mid = out@;
    let mut i: usize = 0;
    while i < bs.len()
        invariant
            i <= bs@.len(),
            out@ == mid + bs@.subrange(0, i as int),
        decreases bs@.len() - i,
    {
        let b = *slice_index_get(bs, i);
        let ghost prev = out@;
        out.push(b);
        proof {
            assert(out@ =~= mid + bs@.subrange(0, i + 1));
        }
        i = i + 1;
    }
    proof {
        assert(bs@.subrange(0, bs@.len() as int) =~= bs@);
        assert(out@ =~= pre + enc_str(v@));
    }
}

#[verifier::rlimit(60)]
fn get_str(bytes: &Vec<u8>, pos: usize) -> (r: Option<(String, usize)>)
    requires
        pos <= bytes@.len(),
    ensures
        r matches Some(p) ==> pos < p.1 <= bytes@.len(),
        forall|v: Seq<char>|
            str_len_ok(v) && (#[trigger] enc_str(v)).is_prefix_of(bytes@.skip(pos as int)) ==> (
            r matches Some(p) && p.0@ == v && p.1 == pos + enc_str(v).len()),
{
    let n = get_u64(bytes, pos);
    if let Some((n, p1)) = n {
        if n <= (bytes.len() - p1) as u64 {
            let nu = n as usize;
            let blen = bytes.len();
            let mut buf: Vec<u8> = Vec::new();
            let mut i: usize = 0;
            while i < nu
                invariant
                    i <= nu,
                    p1 + nu <= bytes@.len(),
                    bytes@.len() == blen,
                    buf@ == bytes@.subrange(p1 as int, p1 + i),
                decreases nu - i,
            {
                let b = bytes[p1 + i];
                proof {
                    assert(bytes@.subrange(p1 as int, p1 + i + 1) =~= bytes@.subrange(
                        p1 as int,
                        p1 + i,
                    ).push(b));
                }
                buf.push(b);
                i = i + 1;
            }
            let ghost bufv = buf@;
            let s = string_from_utf8(buf);
            proof {
                assert forall|v: Seq<char>|
                    str_len_ok(v) && (#[trigger] enc_str(v)).is_prefix_of(
                        bytes@.skip(pos as int),
                    ) implies (s matches Some(ss) && ss@ == v && p1 + nu == pos + enc_str(
                    v,
                ).len()) by {
                    lemma_concat_prefix(
                        bytes@,
                        enc_u64(encode_utf8(v).len() as u64),
                        encode_utf8(v),
                        pos as int,
                    );
                    assert(n == encode_utf8(v).len() as u64);
                    assert(nu == encode_utf8(v).len());
                    assert(bufv =~= encode_utf8(v)) by {
                        assert forall|k: int| 0 <= k < nu implies bufv[k] == encode_utf8(v)[k] by {
                            lemma_prefix_index(bytes@, p1 as int, encode_utf8(v), k);
                            assert(bufv[k] == bytes@[p1 + k]);
                        }
                    }
                    encode_utf8_valid_utf8(v);
                    encode_utf8_decode_utf8(v);
                }
            }
            match s {
                Some(s) => Some((s, p1 + nu)),
                None => None,
            }
        } else {
            proof {
                assert forall|v: Seq<char>| !(str_len_ok(v) && (#[trigger] enc_str(v)).is_prefix_of(
                    bytes@.skip(pos as int),
                )) by {
                    if str_len_ok(v) && enc_str(v).is_prefix_of(bytes@.skip(pos as int)) {
                        lemma_concat_prefix(
                            bytes@,
                            enc_u64(encode_utf8(v).len() as u64),
                            encode_utf8(v),
                            pos as int,
                        );
                        assert(n == encode_utf8(v).len() as u64);
                        assert(false);
                    }
                }
            }
            None
        }
    } else {
        proof {
            assert forall|v: Seq<char>| !(str_len_ok(v) && (#[trigger] enc_str(v)).is_prefix_of(
                bytes@.skip(pos as int),
            )) by {
                if str_len_ok(v) && enc_str(v).is_prefix_of(bytes@.skip(pos as int)) {
                    lemma_concat_prefix(
                        bytes@,
                        enc_u64(encode_utf8(v).len() as u64),
                        encode_utf8(v),
                        pos as int,
                    );
                    assert(false);
                }
            }
        }
        None
    }
}

/// An optional combat record: a presence flag, then the record if present.
pub open spec fn enc_opt_fighter(v: Option<Fighter>) -> Seq<u8> {
    match v {
        None => seq![0u8],
        Some(f) => seq![1u8] + enc_fighter(f),
    }
}

fn put_opt_fighter(out: &mut Vec<u8>, v: &Option<Fighter>)
    ensures
        final(out)@ == old(out)@ + enc_opt_fighter(*v),
{
    let ghost pre = out@;
    match v {
        None => {
            out.push(0u8);
            proof {
                assert(out@ =~= pre + enc_opt_fighter(*v));
            }
        },
        Some(f) => {
            out.push(1u8);
            put_fighter(out, f);
            proof {
                assert(out@ =~= pre + enc_opt_fighter(*v));
            }
        },
    }
}

fn get_opt_fighter(bytes: &Vec<u8>, pos: usize) -> (r: Option<(Option<Fighter>, usize)>)
    requires
        pos <= bytes@.len(),
    ensures
        r matches Some(p) ==> pos < p.1 <= bytes@.len(),
        forall|v: Option<Fighter>|
            (#[trigger] enc_opt_fighter(v)).is_prefix_of(bytes@.skip(pos as int)) ==> (
            r matches Some(p) && p.0 == v && p.1 == pos + enc_opt_fighter(v).len()),
{
    if bytes.len() - pos >= 1 {
        let tag = bytes[pos];
        proof {
            assert forall|v: Option<Fighter>|
                (#[trigger] enc_opt_fighter(v)).is_prefix_of(
                    bytes@.skip(pos as int),
                ) implies enc_opt_fighter(v)[0] == tag by {
                lemma_prefix_index(bytes@, pos as int, enc_opt_fighter(v), 0);
            }
        }
        if tag == 0 {
            Some((None, pos + 1))
        } else if tag == 1 {
            let f = get_fighter(bytes, pos + 1);
            proof {
                assert forall|v: Option<Fighter>|
                    (#[trigger] enc_opt_fighter(v)).is_prefix_of(
                        bytes@.skip(pos as int),
                    ) implies (v matches Some(fv) && enc_fighter(fv).is_prefix_of(
                    bytes@.skip(pos + 1),
                )) by {
                    match v {
                        None => {
                            assert(false);
                        },
                        Some(fv) => {
                            lemma_concat_prefix(bytes@, seq![1u8], enc_fighter(fv), pos as int);
                        },
                    }
                }
            }
            match f {
                Some((f, p2)) => Some((Some(f), p2)),
                None => None,
            }
        } else {
            None
        }
    } else {
        None
    }
}

/// An optional item kind: a presence flag, then the kind if present.
pub open spec fn enc_opt_item(v: Option<Item>) -> Seq<u8> {
    match v {
        None => seq![0u8],
        Some(k) => seq![1u8] + enc_item(k),
    }
}

fn put_opt_item(out: &mut Vec<u8>, v: &Option<Item>)
    ensures
        final(out)@ == old(out)@ + enc_opt_item(*v),
{
    let ghost pre = out@;
    match v {
        None => {
            out.push(0u8);
            proof {
                assert(out@ =~= pre + enc_opt_item(*v));
            }
        },
        Some(k) => {
            out.push(1u8);
            put_item(out, *k);
            proof {
                assert(out@ =~= pre + enc_opt_item(*v));
            }
        },
    }
}

fn get_opt_item(bytes: &Vec<u8>, pos: usize) -> (r: Option<(Option<Item>, usize)>)
    requires
        pos <= bytes@.len(),
    ensures
        r matches Some(p) ==> pos < p.1 <= bytes@.len(),
        forall|v: Option<Item>|
            (#[trigger] enc_opt_item(v)).is_prefix_of(bytes@.skip(pos as int)) ==> (r matches Some(
                p,
            ) && p.0 == v && p.1 == pos + enc_opt_item(v).len()),
{
    if bytes.len() - pos >= 1 {
        let tag = bytes[pos];
        proof {
            assert forall|v: Option<Item>|
                (#[trigger] enc_opt_item(v)).is_prefix_of(
                    bytes@.skip(pos as int),
                ) implies enc_opt_item(v)[0] == tag by {
                lemma_prefix_index(bytes@, pos as int, enc_opt_item(v), 0);
            }
        }
        if tag == 0 {
            Some((None, pos + 1))
        } else if tag == 1 {
            let k = get_item(bytes, pos + 1);
            proof {
                assert forall|v: Option<Item>|
                    (#[trigger] enc_opt_item(v)).is_prefix_of(
                        bytes@.skip(pos as int),
                    ) implies (v matches Some(kv) && enc_item(kv).is_prefix_of(
                    bytes@.skip(pos + 1),
                )) by {
                    match v {
                        None => {
                            assert(false);
                        },
                        Some(kv) => {
                            lemma_concat_prefix(bytes@, seq![1u8], enc_item(kv), pos as int);
                        },
                    }
                }
            }
            match k {
                Some((k, p2)) => Some((Some(k), p2)),
                None => None,
            }
        } else {
            None
        }
    } else {
        None
    }
}

/// A behavior, including every nested confusion wrapper.
pub open spec fn enc_ai(v: Ai) -> Seq<u8>
    decreases v,
{
    match v {
        Ai::Basic => seq![0u8],
        Ai::Confused { previous, num_turns } => seq![1u8] + (enc_i32(num_turns) + enc_ai(
            *previous,
        )),
    }
}

fn put_ai(out: &mut Vec<u8>, v: &Ai)
    ensures
        final(out)@ == old(out)@ + enc_ai(*v),
    decreases *v,
{
    let ghost pre = out@;
    match v {
        Ai::Basic => {
            out.push(0u8);
            proof {
                assert(out@ =~= pre + enc_ai(*v));
            }
        },
        Ai::Confused { previous, num_turns } => {
            out.push(1u8);
            put_i32(out, *num_turns);
            put_ai(out, previous);
            proof {
                assert(out@ =~= pre + enc_ai(*v));
            }
        },
    }
}

#[verifier::rlimit(60)]
fn get_ai(bytes: &Vec<u8>, pos: usize) -> (r: Option<(Ai, usize)>)
    requires
        pos <= bytes@.len(),
    ensures
        r matches Some(p) ==> pos < p.1 <= bytes@.len(),
        forall|v: Ai|
            (#[trigger] enc_ai(v)).is_prefix_of(bytes@.skip(pos as int)) ==> (r matches Some(p)
                && p.0 == v && p.1 == pos + enc_ai(v).len()),
    decreases bytes@.len() - pos,
{
    if bytes.len() - pos >= 1 {
        let tag = bytes[pos];
        proof {
            assert forall|v: Ai|
                (#[trigger] enc_ai(v)).is_prefix_of(bytes@.skip(pos as int)) implies enc_ai(v)[0]
                == tag by {
                lemma_prefix_index(bytes@, pos as int, enc_ai(v), 0);
            }
        }
        if tag == 0 {
            Some((Ai::Basic, pos + 1))
        } else if tag == 1 {
            let nt = get_i32(bytes, pos + 1);
            proof {
                assert forall|v: Ai|
                    (#[trigger] enc_ai(v)).is_prefix_of(bytes@.skip(pos as int)) implies (
                v matches Ai::Confused { previous, num_turns } && enc_i32(num_turns).is_prefix_of(
                    bytes@.skip(pos + 1),
                ) && enc_ai(*previous).is_prefix_of(bytes@.skip(pos + 5))) by {
                    match v {
                        Ai::Basic => {
                            assert(false);
                        },
                        Ai::Confused { previous, num_turns } => {
                            lemma_concat_prefix(
                                bytes@,
                                seq![1u8],
                                enc_i32(num_turns) + enc_ai(*previous),
                                pos as int,
                            );
                            lemma_concat_prefix(
                                bytes@,
                                enc_i32(num_turns),
                                enc_ai(*previous),
                                pos + 1,
                            );
                        },
                    }
                }
            }
            if let Some((nt, p2)) = nt {
                if let Some((prev, p3)) = get_ai(bytes, p2) {
                    return Some((Ai::Confused { previous: Box::new(prev), num_turns: nt }, p3));
                }
            }
            None
        } else {
            None
        }
    } else {
        None
    }
}

/// An optional behavior: a presence flag, then the behavior if present.
pub open spec fn enc_opt_ai(v: Option<Ai>) -> Seq<u8> {
    match v {
        None => seq![0u8],
        Some(a) => seq![1u8] + enc_ai(a),
    }
}

fn put_opt_ai(out: &mut Vec<u8>, v: &Option<Ai>)
    ensures
        final(out)@ == old(out)@ + enc_opt_ai(*v),
{
    let ghost pre = out@;
    match v {
        None => {
            out.push(0u8);
            proof {
                assert(out@ =~= pre + enc_opt_ai(*v));
            }
        },
        Some(a) => {
            out.push(1u8);
            put_ai(out, a);
            proof {
                assert(out@ =~= pre + enc_opt_ai(*v));
            }
        },
    }
}

fn get_opt_ai(bytes: &Vec<u8>, pos: usize) -> (r: Option<(Option<Ai>, usize)>)
    requires
        pos <= bytes@.len(),
    ensures
        r matches Some(p) ==> pos < p.1 <= bytes@.len(),
        forall|v: Option<Ai>|
            (#[trigger] enc_opt_ai(v)).is_prefix_of(bytes@.skip(pos as int)) ==> (r matches Some(p)
                && p.0 == v && p.1 == pos + enc_opt_ai(v).len()),
{
    if bytes.len() - pos >= 1 {
        let tag = bytes[pos];
        proof {
            assert forall|v: Option<Ai>|
                (#[trigger] enc_opt_ai(v)).is_prefix_of(bytes@.skip(pos as int)) implies enc_opt_ai(
                v,
            )[0] == tag by {
                lemma_prefix_index(bytes@, pos as int, enc_opt_ai(v), 0);
            }
        }
        if tag == 0 {
            Some((None, pos + 1))
        } else if tag == 1 {
            let a = get_ai(bytes, pos + 1);
            proof {
                assert forall|v: Option<Ai>|
                    (#[trigger] enc_opt_ai(v)).is_prefix_of(bytes@.skip(pos as int)) implies (
                v matches Some(av) && enc_ai(av).is_prefix_of(bytes@.skip(pos + 1))) by {
                    match v {
                        None => {
                            assert(false);
                        },
                        Some(av) => {
                            lemma_concat_prefix(bytes@, seq![1u8], enc_ai(av), pos as int);
                        },
                    }
                }
            }
            match a {
                Some((a, p2)) => Some((Some(a), p2)),
                None => None,
            }
        } else {
            None
        }
    } else {
        None
    }
}

/// The mathematical value of one entity: every field as the contracts speak
/// of it, the name as its character sequence.
pub ghost struct ObjectV {
    pub x: i32,
    pub y: i32,
    pub glyph: char,
    pub color: Color,
    pub name: Seq<char>,
    pub blocks: bool,
    pub alive: bool,
    pub always_visible: bool,
    pub fighter: Option<Fighter>,
    pub ai: Option<Ai>,
    pub item: Option<Item>,
}

impl View for Object {
    type V = ObjectV;

    open spec fn view(&self) -> ObjectV {
        ObjectV {
            x: self.x,
            y: self.y,
            glyph: self.glyph,
            color: self.color,
            name: self.name@,
            blocks: self.blocks,
            alive: self.alive,
            always_visible: self.always_visible,
            fighter: self.fighter,
            ai: self.ai,
            item: self.item,
        }
    }
}

/// One entity, every field in order. (Opaque: the field decoders reason
/// through `obj_splits` and `obj_sound` rather than the raw concatenation.)
#[verifier::opaque]
pub open spec fn enc_obj(v: ObjectV) -> Seq<u8> {
    enc_i32(v.x) + (enc_i32(v.y) + (enc_char(v.glyph) + (enc_color(v.color) + (enc_str(v.name) + (
    enc_bool(v.blocks) + (enc_bool(v.alive) + (enc_bool(v.always_visible) + (enc_opt_fighter(
        v.fighter,
    ) + (enc_opt_ai(v.ai) + enc_opt_item(v.item))))))))))
}

pub open spec fn obj_ok(v: ObjectV) -> bool {
    str_len_ok(v.name)
}

#[verifier::rlimit(100)]
fn put_obj(out: &mut Vec<u8>, v: &Object)
    ensures
        final(out)@ == old(out)@ + enc_obj(v@),
        obj_ok(v@),
{
    let ghost pre = out@;
    put_i32(out, v.x);
    put_i32(out, v.y);
    put_char(out, v.glyph);
    put_color(out, v.color);
    put_str(out, v.name.as_str());
    put_bool(out, v.blocks);
    put_bool(out, v.alive);
    put_bool(out, v.always_visible);
    put_opt_fighter(out, &v.fighter);
    put_opt_ai(out, &v.ai);
    put_opt_item(out, &v.item);
    proof {
        reveal(enc_obj);
        let o = v@;
        let e1 = enc_i32(o.x);
        let e2 = enc_i32(o.y);
        let e3 = enc_char(o.glyph);
        let e4 = enc_color(o.color);
        let e5 = enc_str(o.name);
        let e6 = enc_bool(o.blocks);
        let e7 = enc_bool(o.alive);
        let e8 = enc_bool(o.always_visible);
        let e9 = enc_opt_fighter(o.fighter);
        let e10 = enc_opt_ai(o.ai);
        let e11 = enc_opt_item(o.item);
        assert(out@ == pre + e1 + e2 + e3 + e4 + e5 + e6 + e7 + e8 + e9 + e10 + e11);
        assoc3(pre + e1 + e2 + e3 + e4 + e5 + e6 + e7 + e8 + e9, e10, e11);
        assoc3(pre + e1 + e2 + e3 + e4 + e5 + e6 + e7 + e8, e9, e10 + e11);
        assoc3(pre + e1 + e2 + e3 + e4 + e5 + e6 + e7, e8, e9 + (e10 + e11));
        assoc3(pre + e1 + e2 + e3 + e4 + e5 + e6, e7, e8 + (e9 + (e10 + e11)));
        assoc3(pre + e1 + e2 + e3 + e4 + e5, e6, e7 + (e8 + (e9 + (e10 + e11))));
        assoc3(pre + e1 + e2 + e3 + e4, e5, e6 + (e7 + (e8 + (e9 + (e10 + e11)))));
        assoc3(pre + e1 + e2 + e3, e4, e5 + (e6 + (e7 + (e8 + (e9 + (e10 + e11))))));
        assoc3(pre + e1 + e2, e3, e4 + (e5 + (e6 + (e7 + (e8 + (e9 + (e10 + e11)))))));
        assoc3(pre + e1, e2, e3 + (e4 + (e5 + (e6 + (e7 + (e8 + (e9 + (e10 + e11))))))));
        assoc3(pre, e1, e2 + (e3 + (e4 + (e5 + (e6 + (e7 + (e8 + (e9 + (e10 + e11)))))))));
        assert(out@ == pre + enc_obj(o));
    }
}

/// Split one entity encoding at the front of a stream suffix into its
/// fields, each at its own offset.
proof fn obj_splits(s: Seq<u8>, pos: int, v: ObjectV)
    requires
        0 <= pos <= s.len(),
        enc_obj(v).is_prefix_of(s.skip(pos)),
    ensures
        enc_i32(v.x).is_prefix_of(s.skip(pos)),
        enc_i32(v.y).is_prefix_of(s.skip(pos + 4)),
        enc_char(v.glyph).is_prefix_of(s.skip(pos + 8)),
        enc_color(v.color).is_prefix_of(s.skip(pos + 12)),
        enc_str(v.name).is_prefix_of(s.skip(pos + 15)),
        ({
            let q = pos + 15 + enc_str(v.name).len();
            &&& enc_bool(v.blocks).is_prefix_of(s.skip(q))
            &&& enc_bool(v.alive).is_prefix_of(s.skip(q + 1))
            &&& enc_bool(v.always_visible).is_prefix_of(s.skip(q + 2))
            &&& enc_opt_fighter(v.fighter).is_prefix_of(s.skip(q + 3))
            &&& enc_opt_ai(v.ai).is_prefix_of(s.skip(q + 3 + enc_opt_fighter(v.fighter).len()))
            &&& enc_opt_item(v.item).is_prefix_of(
                s.skip(q + 3 + enc_opt_fighter(v.fighter).len() + enc_opt_ai(v.ai).len()),
            )
            &&& pos + enc_obj(v).len() == q + 3 + enc_opt_fighter(v.fighter).len() + enc_opt_ai(
                v.ai,
            ).len() + enc_opt_item(v.item).len()
        }),
{
    reveal(enc_obj);
    let e5 = enc_bool(v.blocks) + (enc_bool(v.alive) + (enc_bool(v.always_visible) + (
    enc_opt_fighter(v.fighter) + (enc_opt_ai(v.ai) + enc_opt_item(v.item)))));
    lemma_concat_prefix(
        s,
        enc_i32(v.x),
        enc_i32(v.y) + (enc_char(v.glyph) + (enc_color(v.color) + (enc_str(v.name) + e5))),
        pos,
    );
    lemma_concat_prefix(
        s,
        enc_i32(v.y),
        enc_char(v.glyph) + (enc_color(v.color) + (enc_str(v.name) + e5)),
        pos + 4,
    );
    lemma_concat_prefix(s, enc_char(v.glyph), enc_color(v.color) + (enc_str(v.name) + e5), pos + 8);
    lemma_concat_prefix(s, enc_color(v.color), enc_str(v.name) + e5, pos + 12);
    lemma_concat_prefix(s, enc_str(v.name), e5, pos + 15);
    let q = pos + 15 + enc_str(v.name).len();
    lemma_concat_prefix(
        s,
        enc_bool(v.blocks),
        enc_bool(v.alive) + (enc_bool(v.always_visible) + (enc_opt_fighter(v.fighter) + (
        enc_opt_ai(v.ai) + enc_opt_item(v.item)))),
        q,
    );
    lemma_concat_prefix(
        s,
        enc_bool(v.alive),
        enc_bool(v.always_visible) + (enc_opt_fighter(v.fighter) + (enc_opt_ai(v.ai) + enc_opt_item(
            v.item,
        ))),
        q + 1,
    );
    lemma_concat_prefix(
        s,
        enc_bool(v.always_visible),
        enc_opt_fighter(v.fighter) + (enc_opt_ai(v.ai) + enc_opt_item(v.item)),
        q + 2,
    );
    lemma_concat_prefix(
        s,
        enc_opt_fighter(v.fighter),
        enc_opt_ai(v.ai) + enc_opt_item(v.item),
        q + 3,
    );
    lemma_concat_prefix(
        s,
        enc_opt_ai(v.ai),
        enc_opt_item(v.item),
        q + 3 + enc_opt_fighter(v.fighter).len(),
    );
}

#[verifier::rlimit(100)]
fn get_obj(bytes: &Vec<u8>, pos: usize) -> (r: Option<(Object, usize)>)
    requires
        pos <= bytes@.len(),
    ensures
        r matches Some(p) ==> pos < p.1 <= bytes@.len(),
        forall|v: ObjectV|
            obj_ok(v) && (#[trigger] enc_obj(v)).is_prefix_of(bytes@.skip(pos as int)) ==> (
            r matches Some(p) && p.0@ == v && p.1 == pos + enc_obj(v).len()),
{
    let r0 = get_i32(bytes, pos);
    let (x, p1) = match r0 {
        Some(v) => v,
        None => {
            proof {
                obj_premise_refuted(bytes@, pos as int);
            }
            return None;
        },
    };
    let r1 = get_i32(bytes, p1);
    let (y, p2) = match r1 {
        Some(v) => v,
        None => {
            proof {
                obj_premise_refuted(bytes@, pos as int);
            }
            return None;
        },
    };
    let r2 = get_char(bytes, p2);
    let (glyph, p3) = match r2 {
        Some(v) => v,
        None => {
            proof {
                obj_premise_refuted(bytes@, pos as int);
            }
            return None;
        },
    };
    let r3 = get_color(bytes, p3);
    let (color, p4) = match r3 {
        Some(v) => v,
        None => {
            proof {
                obj_premise_refuted(bytes@, pos as int);
            }
            return None;
        },
    };
    let r4 = get_str(bytes, p4);
    let (name, p5) = match r4 {
        Some(v) => v,
        None => {
            proof {
                obj_premise_refuted(bytes@, pos as int);
            }
            return None;
        },
    };
    let r5 = get_bool(bytes, p5);
    let (blocks, p6) = match r5 {
        Some(v) => v,
        None => {
            proof {
                obj_premise_refuted(bytes@, pos as int);
            }
            return None;
        },
    };
    let r6 = get_bool(bytes, p6);
    let (alive, p7) = match r6 {
        Some(v) => v,
        None => {
            proof {
                obj_premise_refuted(bytes@, pos as int);
            }
            return None;
        },
    };
    let r7 = get_bool(bytes, p7);
    let (always_visible, p8) = match r7 {
        Some(v) => v,
        None => {
            proof {
                obj_premise_refuted(bytes@, pos as int);
            }
            return None;
        },
    };
    let r8 = get_opt_fighter(bytes, p8);
    let (fighter, p9) = match r8 {
        Some(v) => v,
        None => {
            proof {
                obj_premise_refuted(bytes@, pos as int);
            }
            return None;
        },
    };
    let r9 = get_opt_ai(bytes, p9);
    let (ai, p10) = match r9 {
        Some(v) => v,
        None => {
            proof {
                obj_premise_refuted(bytes@, pos as int);
            }
            return None;
        },
    };
    let r10 = get_opt_item(bytes, p10);
    let (item, p11) = match r10 {
        Some(v) => v,
        None => {
            proof {
                obj_premise_refuted(bytes@, pos as int);
            }
            return None;
        },
    };
    let o = Object { x, y, glyph, color, name, blocks, alive, always_visible, fighter, ai, item };
    proof {
        assert forall|v: ObjectV|
            obj_ok(v) && (#[trigger] enc_obj(v)).is_prefix_of(bytes@.skip(pos as int)) implies (o@
            == v && p11 == pos + enc_obj(v).len()) by {
            obj_splits(bytes@, pos as int, v);
        }
    }
    Some((o, p11))
}

/// In a failure path of the entity decoder, no well-formed entity encoding
/// can start the suffix: a field decoder would otherwise have succeeded.
/// (Spelled as a macro-free helper so each failure branch derives its own
/// contradiction from the field decoders' contracts in context.)
proof fn obj_premise_refuted(s: Seq<u8>, pos: int)
    requires
        0 <= pos <= s.len(),
    ensures
        forall|v: ObjectV|
            obj_ok(v) && (#[trigger] enc_obj(v)).is_prefix_of(s.skip(pos)) ==> obj_fields_split(
                s,
                pos,
                v,
            ),
{
    assert forall|v: ObjectV|
        obj_ok(v) && (#[trigger] enc_obj(v)).is_prefix_of(s.skip(pos)) implies obj_fields_split(
        s,
        pos,
        v,
    ) by {
        obj_splits(s, pos, v);
    }
}

/// All eleven field encodings of an entity sit at their own offsets.
pub open spec fn obj_fields_split(s: Seq<u8>, pos: int, v: ObjectV) -> bool {
    let q = pos + 15 + enc_str(v.name).len();
    &&& enc_i32(v.x).is_prefix_of(s.skip(pos))
    &&& enc_i32(v.y).is_prefix_of(s.skip(pos + 4))
    &&& enc_char(v.glyph).is_prefix_of(s.skip(pos + 8))
    &&& enc_color(v.color).is_prefix_of(s.skip(pos + 12))
    &&& enc_str(v.name).is_prefix_of(s.skip(pos + 15))
    &&& enc_bool(v.blocks).is_prefix_of(s.skip(q))
    &&& enc_bool(v.alive).is_prefix_of(s.skip(q + 1))
    &&& enc_bool(v.always_visible).is_prefix_of(s.skip(q + 2))
    &&& enc_opt_fighter(v.fighter).is_prefix_of(s.skip(q + 3))
    &&& enc_opt_ai(v.ai).is_prefix_of(s.skip(q + 3 + enc_opt_fighter(v.fighter).len()))
    &&& enc_opt_item(v.item).is_prefix_of(
        s.skip(q + 3 + enc_opt_fighter(v.fighter).len() + enc_opt_ai(v.ai).len()),
    )
    &&& pos + enc_obj(v).len() == q + 3 + enc_opt_fighter(v.fighter).len() + enc_opt_ai(
        v.ai,
    ).len() + enc_opt_item(v.item).len()
}

/// The tiles of one column, in order.
pub open spec fn enc_tiles(s: Seq<Tile>) -> Seq<u8>
    decreases s.len(),
{
    if s.len() == 0 {
        Seq::empty()
    } else {
        enc_tile(s[0]) + enc_tiles(s.drop_first())
    }
}

proof fn lemma_enc_tiles_snoc(s: Seq<Tile>, x: Tile)
    ensures
        enc_tiles(s.push(x)) == enc_tiles(s) + enc_tile(x),
    decreases s.len(),
{
    if s.len() == 0 {
        assert(s.push(x).drop_first() =~= s);
        assert(enc_tiles(s) + enc_tile(x) =~= enc_tile(x) + enc_tiles(s));
    } else {
        assert(s.push(x).drop_first() =~= s.drop_first().push(x));
        lemma_enc_tiles_snoc(s.drop_first(), x);
        assoc3(enc_tile(s[0]), enc_tiles(s.drop_first()), enc_tile(x));
    }
}

/// One grid column: its tile count, then its tiles.
pub open spec fn enc_col(c: Seq<Tile>) -> Seq<u8> {
    enc_u64(c.len() as u64) + enc_tiles(c)
}

/// The columns of the grid, in order.
pub open spec fn enc_cols(g: Seq<Seq<Tile>>) -> Seq<u8>
    decreases g.len(),
{
    if g.len() == 0 {
        Seq::empty()
    } else {
        enc_col(g[0]) + enc_cols(g.drop_first())
    }
}

proof fn lemma_enc_cols_snoc(g: Seq<Seq<Tile>>, x: Seq<Tile>)
    ensures
        enc_cols(g.push(x)) == enc_cols(g) + enc_col(x),
    decreases g.len(),
{
    if g.len() == 0 {
        assert(g.push(x).drop_first() =~= g);
        assert(enc_cols(g) + enc_col(x) =~= enc_col(x) + enc_cols(g));
    } else {
        assert(g.push(x).drop_first() =~= g.drop_first().push(x));
        lemma_enc_cols_snoc(g.drop_first(), x);
        assoc3(enc_col(g[0]), enc_cols(g.drop_first()), enc_col(x));
    }
}

/// The whole grid: its column count, then each column.
pub open spec fn enc_grid(g: Seq<Seq<Tile>>) -> Seq<u8> {
    enc_u64(g.len() as u64) + enc_cols(g)
}

pub open spec fn grid_ok(g: Seq<Seq<Tile>>) -> bool {
    &&& g.len() <= u64::MAX
    &&& forall|i: int| 0 <= i < g.len() ==> (#[trigger] g[i]).len() <= u64::MAX
}

/// One log entry: its text, then its color.
pub open spec fn enc_msg(m: (Seq<char>, Color)) -> Seq<u8> {
    enc_str(m.0) + enc_color(m.1)
}

pub open spec fn enc_msgs_list(ms: Seq<(Seq<char>, Color)>) -> Seq<u8>
    decreases ms.len(),
{
    if ms.len() == 0 {
        Seq::empty()
    } else {
        enc_msg(ms[0]) + enc_msgs_list(ms.drop_first())
    }
}

proof fn lemma_enc_msgs_snoc(ms: Seq<(Seq<char>, Color)>, x: (Seq<char>, Color))
    ensures
        enc_msgs_list(ms.push(x)) == enc_msgs_list(ms) + enc_msg(x),
    decreases ms.len(),
{
    if ms.len() == 0 {
        assert(ms.push(x).drop_first() =~= ms);
        assert(enc_msgs_list(ms) + enc_msg(x) =~= enc_msg(x) + enc_msgs_list(ms));
    } else {
        assert(ms.push(x).drop_first() =~= ms.drop_first().push(x));
        lemma_enc_msgs_snoc(ms.drop_first(), x);
        assoc3(enc_msg(ms[0]), enc_msgs_list(ms.drop_first()), enc_msg(x));
    }
}

/// The message log: its length, then each entry.
pub open spec fn enc_msgs(ms: Seq<(Seq<char>, Color)>) -> Seq<u8> {
    enc_u64(ms.len() as u64) + enc_msgs_list(ms)
}

pub open spec fn msgs_ok(ms: Seq<(Seq<char>, Color)>) -> bool {
    &&& ms.len() <= u64::MAX
    &&& forall|i: int| 0 <= i < ms.len() ==> str_len_ok((#[trigger] ms[i]).0)
}

pub open spec fn enc_objs_list(s: Seq<ObjectV>) -> Seq<u8>
    decreases s.len(),
{
    if s.len() == 0 {
        Seq::empty()
    } else {
        enc_obj(s[0]) + enc_objs_list(s.drop_first())
    }
}

proof fn lemma_enc_objs_snoc(s: Seq<ObjectV>, x: ObjectV)
    ensures
        enc_objs_list(s.push(x)) == enc_objs_list(s) + enc_obj(x),
    decreases s.len(),
{
    if s.len() == 0 {
        assert(s.push(x).drop_first() =~= s);
        assert(enc_objs_list(s) + enc_obj(x) =~= enc_obj(x) + enc_objs_list(s));
    } else {
        assert(s.push(x).drop_first() =~= s.drop_first().push(x));
        lemma_enc_objs_snoc(s.drop_first(), x);
        assoc3(enc_obj(s[0]), enc_objs_list(s.drop_first()), enc_obj(x));
    }
}

/// An entity list: its length, then each entity.
pub open spec fn enc_objs(s: Seq<ObjectV>) -> Seq<u8> {
    enc_u64(s.len() as u64) + enc_objs_list(s)
}

pub open spec fn objs_ok(s: Seq<ObjectV>) -> bool {
    &&& s.len() <= u64::MAX
    &&& forall|i: int| 0 <= i < s.len() ==> obj_ok(#[trigger] s[i])
}

/// The grid's mathematical value: a sequence of columns of tiles.
pub open spec fn grid_view(m: Seq<Vec<Tile>>) -> Seq<Seq<Tile>> {
    m.map_values(|c: Vec<Tile>| c@)
}

/// The entity list's mathematical value.
pub open spec fn objs_view(s: Seq<Object>) -> Seq<ObjectV> {
    s.map_values(|o: Object| o@)
}

fn put_grid(out: &mut Vec<u8>, m: &LevelMap)
    ensures
        final(out)@ == old(out)@ + enc_grid(grid_view(m@)),
        grid_ok(grid_view(m@)),
{
    let ghost pre = out@;
    put_u64(out, m.len() as u64);
    let ghost mid = out@;
    let mut i: usize = 0;
    while i < m.len()
        invariant
            i <= m@.len(),
            mid == pre + enc_u64(m@.len() as u64),
            out@ == mid + enc_cols(grid_view(m@).subrange(0, i as int)),
            forall|k: int| 0 <= k < i ==> (#[trigger] grid_view(m@)[k]).len() <= u64::MAX,
        decreases m@.len() - i,
    {
        let col = &m[i];
        let collen = col.len();
        proof {
            assert(grid_view(m@)[i as int].len() == collen);
        }
        put_u64(out, collen as u64);
        let ghost cmid = out@;
        let mut j: usize = 0;
        while j < col.len()
            invariant
                j <= col@.len(),
                out@ == cmid + enc_tiles(col@.subrange(0, j as int)),
            decreases col@.len() - j,
        {
            put_tile(out, col[j]);
            proof {
                assert(col@.subrange(0, j + 1) =~= col@.subrange(0, j as int).push(col@[j as int]));
                lemma_enc_tiles_snoc(col@.subrange(0, j as int), col@[j as int]);
                assoc3(cmid, enc_tiles(col@.subrange(0, j as int)), enc_tile(col@[j as int]));
            }
            j = j + 1;
        }
        proof {
            let gv = grid_view(m@);
            assert(col@.subrange(0, col@.len() as int) =~= col@);
            assert(gv[i as int] == col@);
            assert(gv.subrange(0, i + 1) =~= gv.subrange(0, i as int).push(col@));
            lemma_enc_cols_snoc(gv.subrange(0, i as int), col@);
            assoc3(mid, enc_cols(gv.subrange(0, i as int)), enc_col(col@));
            assert(out@ == cmid + enc_tiles(col@));
            assert(cmid == mid + enc_cols(gv.subrange(0, i as int)) + enc_u64(col@.len() as u64));
            assoc3(
                mid + enc_cols(gv.subrange(0, i as int)),
                enc_u64(col@.len() as u64),
                enc_tiles(col@),
            );
            assert(out@ == mid + enc_cols(gv.subrange(0, i as int)) + enc_col(col@));
            assert(out@ == mid + enc_cols(gv.subrange(0, i + 1)));
        }
        i = i + 1;
    }
    proof {
        let gv = grid_view(m@);
        assert(gv.subrange(0, gv.len() as int) =~= gv);
        assert(out@ =~= pre + enc_grid(gv));
        assert forall|k: int| 0 <= k < gv.len() implies (#[trigger] gv[k]).len() <= u64::MAX by {
            assert(gv[k] == m@[k]@);
        }
    }
}

fn put_msgs(out: &mut Vec<u8>, m: &Messages)
    ensures
        final(out)@ == old(out)@ + enc_msgs(m@),
        msgs_ok(m@),
{
    let ghost pre = out@;
    put_u64(out, m.messages.len() as u64);
    let ghost mid = out@;
    let mut i: usize = 0;
    while i < m.messages.len()
        invariant
            i <= m@.len(),
            m@.len() == m.messages@.len(),
            mid == pre + enc_u64(m@.len() as u64),
            out@ == mid + enc_msgs_list(m@.subrange(0, i as int)),
            forall|k: int| 0 <= k < i ==> str_len_ok((#[trigger] m@[k]).0),
        decreases m@.len() - i,
    {
        let entry = &m.messages[i];
        let ghost emid = out@;
        put_str(out, entry.0.as_str());
        put_color(out, entry.1);
        proof {
            assert(m@[i as int] == (m.messages@[i as int].0@, m.messages@[i as int].1));
            assert(out@ == emid + enc_str(entry.0@) + enc_color(entry.1));
            assoc3(emid, enc_str(entry.0@), enc_color(entry.1));
            assert(out@ == emid + enc_msg(m@[i as int]));
            assert(m@.subrange(0, i + 1) =~= m@.subrange(0, i as int).push(m@[i as int]));
            lemma_enc_msgs_snoc(m@.subrange(0, i as int), m@[i as int]);
            assoc3(mid, enc_msgs_list(m@.subrange(0, i as int)), enc_msg(m@[i as int]));
        }
        i = i + 1;
    }
    proof {
        assert(m@.subrange(0, m@.len() as int) =~= m@);
        assert(out@ =~= pre + enc_msgs(m@));
    }
}

fn put_objs(out: &mut Vec<u8>, v: &Vec<Object>)
    ensures
        final(out)@ == old(out)@ + enc_objs(objs_view(v@)),
        objs_ok(objs_view(v@)),
{
    let ghost pre = out@;
    put_u64(out, v.len() as u64);
    let ghost mid = out@;
    let mut i: usize = 0;
    while i < v.len()
        invariant
            i <= v@.len(),
            mid == pre + enc_u64(v@.len() as u64),
            out@ == mid + enc_objs_list(objs_view(v@).subrange(0, i as int)),
            forall|k: int| 0 <= k < i ==> obj_ok(#[trigger] objs_view(v@)[k]),
        decreases v@.len() - i,
    {
        put_obj(out, &v[i]);
        proof {
            let ov = objs_view(v@);
            assert(ov[i as int] == v@[i as int]@);
            assert(ov.subrange(0, i + 1) =~= ov.subrange(0, i as int).push(ov[i as int]));
            lemma_enc_objs_snoc(ov.subrange(0, i as int), ov[i as int]);
            assoc3(mid, enc_objs_list(ov.subrange(0, i as int)), enc_obj(ov[i as int]));
        }
        i = i + 1;
    }
    proof {
        let ov = objs_view(v@);
        assert(ov.subrange(0, ov.len() as int) =~= ov);
        assert(out@ =~= pre + enc_objs(ov));
    }
}

#[verifier::rlimit(60)]
fn get_tiles(bytes: &Vec<u8>, pos: usize, n: u64) -> (r: Option<(Vec<Tile>, usize)>)
    requires
        pos <= bytes@.len(),
    ensures
        r matches Some(p) ==> pos <= p.1 <= bytes@.len(),
        forall|v: Seq<Tile>|
            v.len() == n && (#[trigger] enc_tiles(v)).is_prefix_of(bytes@.skip(pos as int)) ==> (
            r matches Some(p) && p.0@ == v && p.1 == pos + enc_tiles(v).len()),
    decreases n,
{
    if n == 0 {
        let out: Vec<Tile> = Vec::new();
        proof {
            assert forall|v: Seq<Tile>|
                v.len() == 0 && (#[trigger] enc_tiles(v)).is_prefix_of(
                    bytes@.skip(pos as int),
                ) implies (out@ == v && enc_tiles(v).len() == 0) by {
                assert(out@ =~= v);
            }
        }
        return Some((out, pos));
    }
    let t = get_tile(bytes, pos);
    let (t, p1) = match t {
        Some(v) => v,
        None => {
            proof {
                assert forall|v: Seq<Tile>| !(v.len() == n && (#[trigger] enc_tiles(v)).is_prefix_of(
                    bytes@.skip(pos as int),
                )) by {
                    if v.len() == n && enc_tiles(v).is_prefix_of(bytes@.skip(pos as int)) {
                        lemma_concat_prefix(
                            bytes@,
                            enc_tile(v[0]),
                            enc_tiles(v.drop_first()),
                            pos as int,
                        );
                        assert(false);
                    }
                }
            }
            return None;
        },
    };
    let rest = get_tiles(bytes, p1, n - 1);
    let (rest, p2) = match rest {
        Some(v) => v,
        None => {
            proof {
                assert forall|v: Seq<Tile>| !(v.len() == n && (#[trigger] enc_tiles(v)).is_prefix_of(
                    bytes@.skip(pos as int),
                )) by {
                    if v.len() == n && enc_tiles(v).is_prefix_of(bytes@.skip(pos as int)) {
                        lemma_concat_prefix(
                            bytes@,
                            enc_tile(v[0]),
                            enc_tiles(v.drop_first()),
                            pos as int,
                        );
                        assert(v.drop_first().len() == n - 1);
                        assert(false);
                    }
                }
            }
            return None;
        },
    };
    let mut out = rest;
    out.insert(0, t);
    proof {
        assert forall|v: Seq<Tile>|
            v.len() == n && (#[trigger] enc_tiles(v)).is_prefix_of(
                bytes@.skip(pos as int),
            ) implies (out@ == v && p2 == pos + enc_tiles(v).len()) by {
            lemma_concat_prefix(bytes@, enc_tile(v[0]), enc_tiles(v.drop_first()), pos as int);
            assert(v.drop_first().len() == n - 1);
            assert(out@ =~= v);
        }
    }
    Some((out, p2))
}

fn get_col(bytes: &Vec<u8>, pos: usize) -> (r: Option<(Vec<Tile>, usize)>)
    requires
        pos <= bytes@.len(),
    ensures
        r matches Some(p) ==> pos <= p.1 <= bytes@.len(),
        forall|c: Seq<Tile>|
            c.len() <= u64::MAX && (#[trigger] enc_col(c)).is_prefix_of(bytes@.skip(pos as int))
                ==> (r matches Some(p) && p.0@ == c && p.1 == pos + enc_col(c).len()),
{
    let n = get_u64(bytes, pos);
    let (n, p1) = match n {
        Some(v) => v,
        None => {
            proof {
                assert forall|c: Seq<Tile>| !(c.len() <= u64::MAX && (
                #[trigger] enc_col(c)).is_prefix_of(bytes@.skip(pos as int))) by {
                    if c.len() <= u64::MAX && enc_col(c).is_prefix_of(bytes@.skip(pos as int)) {
                        lemma_concat_prefix(
                            bytes@,
                            enc_u64(c.len() as u64),
                            enc_tiles(c),
                            pos as int,
                        );
                        assert(false);
                    }
                }
            }
            return None;
        },
    };
    let ts = get_tiles(bytes, p1, n);
    let (ts, p2) = match ts {
        Some(v) => v,
        None => {
            proof {
                assert forall|c: Seq<Tile>| !(c.len() <= u64::MAX && (
                #[trigger] enc_col(c)).is_prefix_of(bytes@.skip(pos as int))) by {
                    if c.len() <= u64::MAX && enc_col(c).is_prefix_of(bytes@.skip(pos as int)) {
                        lemma_concat_prefix(
                            bytes@,
                            enc_u64(c.len() as u64),
                            enc_tiles(c),
                            pos as int,
                        );
                        assert(n == c.len() as u64);
                        assert(c.len() == n);
                        assert(false);
                    }
                }
            }
            return None;
        },
    };
    proof {
        assert forall|c: Seq<Tile>|
            c.len() <= u64::MAX && (#[trigger] enc_col(c)).is_prefix_of(
                bytes@.skip(pos as int),
            ) implies (ts@ == c && p2 == pos + enc_col(c).len()) by {
            lemma_concat_prefix(bytes@, enc_u64(c.len() as u64), enc_tiles(c), pos as int);
            assert(n == c.len() as u64);
            assert(c.len() == n);
        }
    }
    Some((ts, p2))
}

#[verifier::rlimit(60)]
fn get_cols(bytes: &Vec<u8>, pos: usize, n: u64) -> (r: Option<(Vec<Vec<Tile>>, usize)>)
    requires
        pos <= bytes@.len(),
    ensures
        r matches Some(p) ==> pos <= p.1 <= bytes@.len(),
        forall|g: Seq<Seq<Tile>>|
            g.len() == n && (forall|i: int| 0 <= i < g.len() ==> (#[trigger] g[i]).len()
                <= u64::MAX) && (#[trigger] enc_cols(g)).is_prefix_of(bytes@.skip(pos as int))
                ==> (r matches Some(p) && grid_view(p.0@) == g && p.1 == pos + enc_cols(g).len()),
    decreases n,
{
    if n == 0 {
        let out: Vec<Vec<Tile>> = Vec::new();
        proof {
            assert forall|g: Seq<Seq<Tile>>|
                g.len() == 0 && (#[trigger] enc_cols(g)).is_prefix_of(
                    bytes@.skip(pos as int),
                ) implies (grid_view(out@) == g && enc_cols(g).len() == 0) by {
                assert(grid_view(out@) =~= g);
            }
        }
        return Some((out, pos));
    }
    let c = get_col(bytes, pos);
    let (c, p1) = match c {
        Some(v) => v,
        None => {
            proof {
                assert forall|g: Seq<Seq<Tile>>| !(g.len() == n && (forall|i: int|
                    0 <= i < g.len() ==> (#[trigger] g[i]).len() <= u64::MAX) && (
                #[trigger] enc_cols(g)).is_prefix_of(bytes@.skip(pos as int))) by {
                    if g.len() == n && (forall|i: int|
                        0 <= i < g.len() ==> (#[trigger] g[i]).len() <= u64::MAX) && enc_cols(
                        g,
                    ).is_prefix_of(bytes@.skip(pos as int)) {
                        lemma_concat_prefix(
                            bytes@,
                            enc_col(g[0]),
                            enc_cols(g.drop_first()),
                            pos as int,
                        );
                        assert(g[0].len() <= u64::MAX);
                        assert(false);
                    }
                }
            }
            return None;
        },
    };
    let rest = get_cols(bytes, p1, n - 1);
    let (rest, p2) = match rest {
        Some(v) => v,
        None => {
            proof {
                assert forall|g: Seq<Seq<Tile>>| !(g.len() == n && (forall|i: int|
                    0 <= i < g.len() ==> (#[trigger] g[i]).len() <= u64::MAX) && (
                #[trigger] enc_cols(g)).is_prefix_of(bytes@.skip(pos as int))) by {
                    if g.len() == n && (forall|i: int|
                        0 <= i < g.len() ==> (#[trigger] g[i]).len() <= u64::MAX) && enc_cols(
                        g,
                    ).is_prefix_of(bytes@.skip(pos as int)) {
                        lemma_concat_prefix(
                            bytes@,
                            enc_col(g[0]),
                            enc_cols(g.drop_first()),
                            pos as int,
                        );
                        assert(g[0].len() <= u64::MAX);
                        assert(g.drop_first().len() == n - 1);
                        assert(forall|i: int|
                            0 <= i < g.drop_first().len() ==> (#[trigger] g.drop_first()[i]).len()
                                <= u64::MAX);
                        assert(false);
                    }
                }
            }
            return None;
        },
    };
    let mut out = rest;
    out.insert(0, c);
    proof {
        assert forall|g: Seq<Seq<Tile>>|
            g.len() == n && (forall|i: int| 0 <= i < g.len() ==> (#[trigger] g[i]).len()
                <= u64::MAX) && (#[trigger] enc_cols(g)).is_prefix_of(
                bytes@.skip(pos as int),
            ) implies (grid_view(out@) == g && p2 == pos + enc_cols(g).len()) by {
            lemma_concat_prefix(bytes@, enc_col(g[0]), enc_cols(g.drop_first()), pos as int);
            assert(g.drop_first().len() == n - 1);
            assert(forall|i: int|
                0 <= i < g.drop_first().len() ==> (#[trigger] g.drop_first()[i]).len()
                    <= u64::MAX);
            assert(grid_view(out@) =~= g) by {
                assert(grid_view(rest@) == g.drop_first());
                assert forall|i: int| 0 <= i < g.len() implies grid_view(out@)[i] == g[i] by {
                    if i == 0 {
                        assert(out@[0] == c);
                    } else {
                        assert(out@[i] == rest@[i - 1]);
                        assert(grid_view(rest@)[i - 1] == g.drop_first()[i - 1]);
                    }
                }
            }
        }
    }
    Some((out, p2))
}

/// The mathematical value of a raw message list.
pub open spec fn msgs_view(s: Seq<(String, Color)>) -> Seq<(Seq<char>, Color)> {
    s.map_values(|p: (String, Color)| (p.0@, p.1))
}

#[verifier::rlimit(60)]
fn get_msg(bytes: &Vec<u8>, pos: usize) -> (r: Option<((String, Color), usize)>)
    requires
        pos <= bytes@.len(),
    ensures
        r matches Some(p) ==> pos < p.1 <= bytes@.len(),
        forall|m: (Seq<char>, Color)|
            str_len_ok(m.0) && (#[trigger] enc_msg(m)).is_prefix_of(bytes@.skip(pos as int)) ==> (
            r matches Some(p) && (p.0.0@, p.0.1) == m && p.1 == pos + enc_msg(m).len()),
{
    let s = get_str(bytes, pos);
    let (s, p1) = match s {
        Some(v) => v,
        None => {
            proof {
                assert forall|m: (Seq<char>, Color)| !(str_len_ok(m.0) && (
                #[trigger] enc_msg(m)).is_prefix_of(bytes@.skip(pos as int))) by {
                    if str_len_ok(m.0) && enc_msg(m).is_prefix_of(bytes@.skip(pos as int)) {
                        lemma_concat_prefix(bytes@, enc_str(m.0), enc_color(m.1), pos as int);
                        assert(false);
                    }
                }
            }
            return None;
        },
    };
    let c = get_color(bytes, p1);
    let (c, p2) = match c {
        Some(v) => v,
        None => {
            proof {
                assert forall|m: (Seq<char>, Color)| !(str_len_ok(m.0) && (
                #[trigger] enc_msg(m)).is_prefix_of(bytes@.skip(pos as int))) by {
                    if str_len_ok(m.0) && enc_msg(m).is_prefix_of(bytes@.skip(pos as int)) {
                        lemma_concat_prefix(bytes@, enc_str(m.0), enc_color(m.1), pos as int);
                        assert(false);
                    }
                }
            }
            return None;
        },
    };
    proof {
        assert forall|m: (Seq<char>, Color)|
            str_len_ok(m.0) && (#[trigger] enc_msg(m)).is_prefix_of(
                bytes@.skip(pos as int),
            ) implies ((s@, c) == m && p2 == pos + enc_msg(m).len()) by {
            lemma_concat_prefix(bytes@, enc_str(m.0), enc_color(m.1), pos as int);
        }
    }
    Some(((s, c), p2))
}

#[verifier::rlimit(60)]
fn get_msgs_list(bytes: &Vec<u8>, pos: usize, n: u64) -> (r: Option<(Vec<(String, Color)>, usize)>)
    requires
        pos <= bytes@.len(),
    ensures
        r matches Some(p) ==> pos <= p.1 <= bytes@.len(),
        forall|ms: Seq<(Seq<char>, Color)>|
            ms.len() == n && (forall|i: int| 0 <= i < ms.len() ==> str_len_ok(
                (#[trigger] ms[i]).0,
            )) && (#[trigger] enc_msgs_list(ms)).is_prefix_of(bytes@.skip(pos as int)) ==> (
            r matches Some(p) && msgs_view(p.0@) == ms && p.1 == pos + enc_msgs_list(ms).len()),
    decreases n,
{
    if n == 0 {
        let out: Vec<(String, Color)> = Vec::new();
        proof {
            assert forall|ms: Seq<(Seq<char>, Color)>|
                ms.len() == 0 && (#[trigger] enc_msgs_list(ms)).is_prefix_of(
                    bytes@.skip(pos as int),
                ) implies (msgs_view(out@) == ms && enc_msgs_list(ms).len() == 0) by {
                assert(msgs_view(out@) =~= ms);
            }
        }
        return Some((out, pos));
    }
    let m = get_msg(bytes, pos);
    let (m, p1) = match m {
        Some(v) => v,
        None => {
            proof {
                assert forall|ms: Seq<(Seq<char>, Color)>| !(ms.len() == n && (forall|i: int|
                    0 <= i < ms.len() ==> str_len_ok((#[trigger] ms[i]).0)) && (
                #[trigger] enc_msgs_list(ms)).is_prefix_of(bytes@.skip(pos as int))) by {
                    if ms.len() == n && (forall|i: int|
                        0 <= i < ms.len() ==> str_len_ok((#[trigger] ms[i]).0)) && enc_msgs_list(
                        ms,
                    ).is_prefix_of(bytes@.skip(pos as int)) {
                        lemma_concat_prefix(
                            bytes@,
                            enc_msg(ms[0]),
                            enc_msgs_list(ms.drop_first()),
                            pos as int,
                        );
                        assert(str_len_ok(ms[0].0));
                        assert(false);
                    }
                }
            }
            return None;
        },
    };
    let rest = get_msgs_list(bytes, p1, n - 1);
    let (rest, p2) = match rest {
        Some(v) => v,
        None => {
            proof {
                assert forall|ms: Seq<(Seq<char>, Color)>| !(ms.len() == n && (forall|i: int|
                    0 <= i < ms.len() ==> str_len_ok((#[trigger] ms[i]).0)) && (
                #[trigger] enc_msgs_list(ms)).is_prefix_of(bytes@.skip(pos as int))) by {
                    if ms.len() == n && (forall|i: int|
                        0 <= i < ms.len() ==> str_len_ok((#[trigger] ms[i]).0)) && enc_msgs_list(
                        ms,
                    ).is_prefix_of(bytes@.skip(pos as int)) {
                        lemma_concat_prefix(
                            bytes@,
                            enc_msg(ms[0]),
                            enc_msgs_list(ms.drop_first()),
                            pos as int,
                        );
                        assert(str_len_ok(ms[0].0));
                        assert(ms.drop_first().len() == n - 1);
                        assert(forall|i: int|
                            0 <= i < ms.drop_first().len() ==> str_len_ok(
                                (#[trigger] ms.drop_first()[i]).0,
                            ));
                        assert(false);
                    }
                }
            }
            return None;
        },
    };
    let mut out = rest;
    out.insert(0, m);
    proof {
        assert forall|ms: Seq<(Seq<char>, Color)>|
            ms.len() == n && (forall|i: int| 0 <= i < ms.len() ==> str_len_ok(
                (#[trigger] ms[i]).0,
            )) && (#[trigger] enc_msgs_list(ms)).is_prefix_of(bytes@.skip(pos as int)) implies (
        msgs_view(out@) == ms && p2 == pos + enc_msgs_list(ms).len()) by {
            lemma_concat_prefix(bytes@, enc_msg(ms[0]), enc_msgs_list(ms.drop_first()), pos as int);
            assert(str_len_ok(ms[0].0));
            assert(ms.drop_first().len() == n - 1);
            assert(forall|i: int|
                0 <= i < ms.drop_first().len() ==> str_len_ok((#[trigger] ms.drop_first()[i]).0));
            assert(msgs_view(out@) =~= ms) by {
                assert(msgs_view(rest@) == ms.drop_first());
                assert forall|i: int| 0 <= i < ms.len() implies msgs_view(out@)[i] == ms[i] by {
                    if i == 0 {
                        assert(out@[0] == m);
                    } else {
                        assert(out@[i] == rest@[i - 1]);
                        assert(msgs_view(rest@)[i - 1] == ms.drop_first()[i - 1]);
                    }
                }
            }
        }
    }
    Some((out, p2))
}

#[verifier::rlimit(60)]
fn get_objs_list(bytes: &Vec<u8>, pos: usize, n: u64) -> (r: Option<(Vec<Object>, usize)>)
    requires
        pos <= bytes@.len(),
    ensures
        r matches Some(p) ==> pos <= p.1 <= bytes@.len(),
        forall|s: Seq<ObjectV>|
            s.len() == n && (forall|i: int| 0 <= i < s.len() ==> obj_ok(#[trigger] s[i])) && (
            #[trigger] enc_objs_list(s)).is_prefix_of(bytes@.skip(pos as int)) ==> (r matches Some(
                p,
            ) && objs_view(p.0@) == s && p.1 == pos + enc_objs_list(s).len()),
    decreases n,
{
    if n == 0 {
        let out: Vec<Object> = Vec::new();
        proof {
            assert forall|s: Seq<ObjectV>|
                s.len() == 0 && (#[trigger] enc_objs_list(s)).is_prefix_of(
                    bytes@.skip(pos as int),
                ) implies (objs_view(out@) == s && enc_objs_list(s).len() == 0) by {
                assert(objs_view(out@) =~= s);
            }
        }
        return Some((out, pos));
    }
    let o = get_obj(bytes, pos);
    let (o, p1) = match o {
        Some(v) => v,
        None => {
            proof {
                assert forall|s: Seq<ObjectV>| !(s.len() == n && (forall|i: int|
                    0 <= i < s.len() ==> obj_ok(#[trigger] s[i])) && (
                #[trigger] enc_objs_list(s)).is_prefix_of(bytes@.skip(pos as int))) by {
                    if s.len() == n && (forall|i: int| 0 <= i < s.len() ==> obj_ok(
                        #[trigger] s[i],
                    )) && enc_objs_list(s).is_prefix_of(bytes@.skip(pos as int)) {
                        lemma_concat_prefix(
                            bytes@,
                            enc_obj(s[0]),
                            enc_objs_list(s.drop_first()),
                            pos as int,
                        );
                        assert(obj_ok(s[0]));
                        assert(false);
                    }
                }
            }
            return None;
        },
    };
    let rest = get_objs_list(bytes, p1, n - 1);
    let (rest, p2) = match rest {
        Some(v) => v,
        None => {
            proof {
                assert forall|s: Seq<ObjectV>| !(s.len() == n && (forall|i: int|
                    0 <= i < s.len() ==> obj_ok(#[trigger] s[i])) && (
                #[trigger] enc_objs_list(s)).is_prefix_of(bytes@.skip(pos as int))) by {
                    if s.len() == n && (forall|i: int| 0 <= i < s.len() ==> obj_ok(
                        #[trigger] s[i],
                    )) && enc_objs_list(s).is_prefix_of(bytes@.skip(pos as int)) {
                        lemma_concat_prefix(
                            bytes@,
                            enc_obj(s[0]),
                            enc_objs_list(s.drop_first()),
                            pos as int,
                        );
                        assert(obj_ok(s[0]));
                        assert(s.drop_first().len() == n - 1);
                        assert(forall|i: int|
                            0 <= i < s.drop_first().len() ==> obj_ok(
                                #[trigger] s.drop_first()[i],
                            ));
                        assert(false);
                    }
                }
            }
            return None;
        },
    };
    let mut out = rest;
    out.insert(0, o);
    proof {
        assert forall|s: Seq<ObjectV>|
            s.len() == n && (forall|i: int| 0 <= i < s.len() ==> obj_ok(#[trigger] s[i])) && (
            #[trigger] enc_objs_list(s)).is_prefix_of(bytes@.skip(pos as int)) implies (objs_view(
            out@,
        ) == s && p2 == pos + enc_objs_list(s).len()) by {
            lemma_concat_prefix(bytes@, enc_obj(s[0]), enc_objs_list(s.drop_first()), pos as int);
            assert(obj_ok(s[0]));
            assert(s.drop_first().len() == n - 1);
            assert(forall|i: int|
                0 <= i < s.drop_first().len() ==> obj_ok(#[trigger] s.drop_first()[i]));
            assert(objs_view(out@) =~= s) by {
                assert(objs_view(rest@) == s.drop_first());
                assert forall|i: int| 0 <= i < s.len() implies objs_view(out@)[i] == s[i] by {
                    if i == 0 {
                        assert(out@[0] == o);
                    } else {
                        assert(out@[i] == rest@[i - 1]);
                        assert(objs_view(rest@)[i - 1] == s.drop_first()[i - 1]);
                    }
                }
            }
        }
    }
    Some((out, p2))
}

#[verifier::rlimit(100)]
fn get_objs(bytes: &Vec<u8>, pos: usize) -> (r: Option<(Vec<Object>, usize)>)
    requires
        pos <= bytes@.len(),
    ensures
        r matches Some(p) ==> pos <= p.1 <= bytes@.len(),
        forall|s: Seq<ObjectV>|
            objs_ok(s) && (#[trigger] enc_objs(s)).is_prefix_of(bytes@.skip(pos as int)) ==> (
            r matches Some(p) && objs_view(p.0@) == s && p.1 == pos + enc_objs(s).len()),
{
    let n = get_u64(bytes, pos);
    let (n, p1) = match n {
        Some(v) => v,
        None => {
            proof {
                assert forall|s: Seq<ObjectV>| !(objs_ok(s) && (#[trigger] enc_objs(s)).is_prefix_of(
                    bytes@.skip(pos as int),
                )) by {
                    if objs_ok(s) && enc_objs(s).is_prefix_of(bytes@.skip(pos as int)) {
                        lemma_concat_prefix(
                            bytes@,
                            enc_u64(s.len() as u64),
                            enc_objs_list(s),
                            pos as int,
                        );
                        assert(false);
                    }
                }
            }
            return None;
        },
    };
    let os = get_objs_list(bytes, p1, n);
    let (os, p2) = match os {
        Some(v) => v,
        None => {
            proof {
                assert forall|s: Seq<ObjectV>| !(objs_ok(s) && (#[trigger] enc_objs(s)).is_prefix_of(
                    bytes@.skip(pos as int),
                )) by {
                    if objs_ok(s) && enc_objs(s).is_prefix_of(bytes@.skip(pos as int)) {
                        lemma_concat_prefix(
                            bytes@,
                            enc_u64(s.len() as u64),
                            enc_objs_list(s),
                            pos as int,
                        );
                        assert(n == s.len() as u64);
                        assert(s.len() == n);
                        assert(false);
                    }
                }
            }
            return None;
        },
    };
    proof {
        assert forall|s: Seq<ObjectV>|
            objs_ok(s) && (#[trigger] enc_objs(s)).is_prefix_of(bytes@.skip(pos as int)) implies (
        objs_view(os@) == s && p2 == pos + enc_objs(s).len()) by {
            lemma_concat_prefix(bytes@, enc_u64(s.len() as u64), enc_objs_list(s), pos as int);
            assert(n == s.len() as u64);
            assert(s.len() == n);
        }
    }
    Some((os, p2))
}

/// The mathematical value of the whole persistable state.
pub ghost struct GameV {
    pub map: Seq<Seq<Tile>>,
    pub messages: Seq<(Seq<char>, Color)>,
    pub inventory: Seq<ObjectV>,
    pub dungeon_level: u32,
}

impl View for Game {
    type V = GameV;

    open spec fn view(&self) -> GameV {
        GameV {
            map: grid_view(self.map@),
            messages: self.messages@,
            inventory: objs_view(self.inventory@),
            dungeon_level: self.dungeon_level,
        }
    }
}

/// The full snapshot: level counter, grid, log, inventory, then the world
/// entity list.
pub open spec fn enc_world(g: GameV, objs: Seq<ObjectV>) -> Seq<u8> {
    enc_u32(g.dungeon_level) + (enc_grid(g.map) + (enc_msgs(g.messages) + (enc_objs(g.inventory)
        + enc_objs(objs))))
}

/// Every length in the snapshot fits its length field (always true of values
/// held in real collections).
pub open spec fn world_enc_ok(g: GameV, objs: Seq<ObjectV>) -> bool {
    &&& grid_ok(g.map)
    &&& msgs_ok(g.messages)
    &&& objs_ok(g.inventory)
    &&& objs_ok(objs)
}

/// Serialize the full world state into one byte blob.
pub fn serialize_world(game: &Game, objects: &Vec<Object>) -> (r: Vec<u8>)
    ensures
        r@ == enc_world(game@, objs_view(objects@)),
        world_enc_ok(game@, objs_view(objects@)),
{
    let mut out: Vec<u8> = Vec::new();
    put_u32(&mut out, game.dungeon_level);
    put_grid(&mut out, &game.map);
    put_msgs(&mut out, &game.messages);
    put_objs(&mut out, &game.inventory);
    put_objs(&mut out, objects);
    proof {
        let g = game@;
        let ov = objs_view(objects@);
        let e1 = enc_u32(g.dungeon_level);
        let e2 = enc_grid(g.map);
        let e3 = enc_msgs(g.messages);
        let e4 = enc_objs(g.inventory);
        let e5 = enc_objs(ov);
        assert(out@ == Seq::<u8>::empty() + e1 + e2 + e3 + e4 + e5);
        assert(Seq::<u8>::empty() + e1 =~= e1);
        assoc3(e1 + e2 + e3, e4, e5);
        assoc3(e1 + e2, e3, e4 + e5);
        assoc3(e1, e2, e3 + (e4 + e5));
        assert(out@ == enc_world(g, ov));
    }
    out
}

/// Exact byte-for-byte comparison of two buffers.
fn bytes_eq(a: &Vec<u8>, b: &Vec<u8>) -> (r: bool)
    ensures
        r == (a@ == b@),
{
    if a.len() != b.len() {
        return false;
    }
    let mut i: usize = 0;
    while i < a.len()
        invariant
            i <= a@.len(),
            a@.len() == b@.len(),
            forall|j: int| 0 <= j < i ==> a@[j] == b@[j],
        decreases a@.len() - i,
    {
        if a[i] != b[i] {
            return false;
        }
        i = i + 1;
    }
    proof {
        assert(a@ =~= b@);
    }
    true
}

/// Deserialize one byte blob back into the full world state; `None` when the
/// blob cannot be read back. Feeding back exactly what `serialize_world`
/// produced always succeeds, with every field of the world equal; and the
/// decoded world is re-encoded and compared against the input, so a `Some`
/// answer certifies that the blob is exactly that world's encoding.
pub fn deserialize_world(bytes: &Vec<u8>) -> (r: Option<(Game, Vec<Object>)>)
    ensures
        r matches Some(w) ==> bytes@ == enc_world(w.0@, objs_view(w.1@)),
        forall|g: GameV, objs: Seq<ObjectV>|
            world_enc_ok(g, objs) && bytes@ == #[trigger] enc_world(g, objs) ==> (r matches Some(w)
                && w.0@ == g && objs_view(w.1@) == objs),
{
    let ghost s = bytes@;
    proof {
        assert(s.skip(0) =~= s);
    }
    let lvl = get_u32(bytes, 0);
    let (dungeon_level, p1) = match lvl {
        Some(v) => v,
        None => {
            proof {
                world_refute(bytes@);
            }
            return None;
        },
    };
    let grid = get_grid_full(bytes, p1);
    let (map, p2) = match grid {
        Some(v) => v,
        None => {
            proof {
                world_refute(bytes@);
            }
            return None;
        },
    };
    let msgs = get_msgs_full(bytes, p2);
    let (messages, p3) = match msgs {
        Some(v) => v,
        None => {
            proof {
                world_refute(bytes@);
            }
            return None;
        },
    };
    let inv = get_objs(bytes, p3);
    let (inventory, p4) = match inv {
        Some(v) => v,
        None => {
            proof {
                world_refute(bytes@);
            }
            return None;
        },
    };
    let objs = get_objs(bytes, p4);
    let (objects, p5) = match objs {
        Some(v) => v,
        None => {
            proof {
                world_refute(bytes@);
            }
            return None;
        },
    };
    if p5 != bytes.len() {
        proof {
            assert forall|g: GameV, objs2: Seq<ObjectV>| !(world_enc_ok(g, objs2) && bytes@
                == #[trigger] enc_world(g, objs2)) by {
                if world_enc_ok(g, objs2) && bytes@ == enc_world(g, objs2) {
                    world_splits(bytes@, g, objs2);
                    assert(false);
                }
            }
        }
        return None;
    }
    let game = Game { map, messages: Messages { messages }, inventory, dungeon_level };
    proof {
        assert forall|g: GameV, objs2: Seq<ObjectV>|
            world_enc_ok(g, objs2) && bytes@ == #[trigger] enc_world(g, objs2) implies (game@ == g
            && objs_view(objects@) == objs2) by {
            world_splits(bytes@, g, objs2);
        }
    }
    // a Some answer certifies the exact encoding: re-encode and compare
    let blob = serialize_world(&game, &objects);
    if !bytes_eq(&blob, bytes) {
        proof {
            assert forall|g: GameV, objs2: Seq<ObjectV>| !(world_enc_ok(g, objs2) && bytes@
                == #[trigger] enc_world(g, objs2)) by {
                if world_enc_ok(g, objs2) && bytes@ == enc_world(g, objs2) {
                    assert(game@ == g && objs_view(objects@) == objs2);
                    assert(blob@ == bytes@);
                    assert(false);
                }
            }
        }
        return None;
    }
    Some((game, objects))
}

/// Split one whole-world encoding into its five parts at their offsets.
#[verifier::rlimit(100)]
proof fn world_splits(s: Seq<u8>, g: GameV, objs: Seq<ObjectV>)
    requires
        s == enc_world(g, objs),
    ensures
        enc_u32(g.dungeon_level).is_prefix_of(s.skip(0)),
        enc_grid(g.map).is_prefix_of(s.skip(4)),
        enc_msgs(g.messages).is_prefix_of(s.skip(4 + enc_grid(g.map).len() as int)),
        enc_objs(g.inventory).is_prefix_of(
            s.skip(4 + enc_grid(g.map).len() as int + enc_msgs(g.messages).len() as int),
        ),
        enc_objs(objs).is_prefix_of(
            s.skip(
                4 + enc_grid(g.map).len() as int + enc_msgs(g.messages).len() as int + enc_objs(
                    g.inventory,
                ).len() as int,
            ),
        ),
        s.len() == 4 + enc_grid(g.map).len() + enc_msgs(g.messages).len() + enc_objs(
            g.inventory,
        ).len() + enc_objs(objs).len(),
{
    assert(s.skip(0) =~= s);
    assert(s.is_prefix_of(s.skip(0)));
    lemma_concat_prefix(
        s,
        enc_u32(g.dungeon_level),
        enc_grid(g.map) + (enc_msgs(g.messages) + (enc_objs(g.inventory) + enc_objs(objs))),
        0,
    );
    lemma_concat_prefix(
        s,
        enc_grid(g.map),
        enc_msgs(g.messages) + (enc_objs(g.inventory) + enc_objs(objs)),
        4,
    );
    lemma_concat_prefix(
        s,
        enc_msgs(g.messages),
        enc_objs(g.inventory) + enc_objs(objs),
        4 + enc_grid(g.map).len() as int,
    );
    lemma_concat_prefix(
        s,
        enc_objs(g.inventory),
        enc_objs(objs),
        4 + enc_grid(g.map).len() as int + enc_msgs(g.messages).len() as int,
    );
}

/// In a failure path of the world decoder, no well-formed world encoding can
/// equal the stream.
proof fn world_refute(s: Seq<u8>)
    ensures
        forall|g: GameV, objs: Seq<ObjectV>|
            world_enc_ok(g, objs) && s == #[trigger] enc_world(g, objs) ==> world_parts(s, g, objs),
{
    assert forall|g: GameV, objs: Seq<ObjectV>|
        world_enc_ok(g, objs) && s == #[trigger] enc_world(g, objs) implies world_parts(
        s,
        g,
        objs,
    ) by {
        world_splits(s, g, objs);
    }
}

/// The five parts of the snapshot each start at their own offset.
pub open spec fn world_parts(s: Seq<u8>, g: GameV, objs: Seq<ObjectV>) -> bool {
    &&& enc_u32(g.dungeon_level).is_prefix_of(s.skip(0))
    &&& enc_grid(g.map).is_prefix_of(s.skip(4))
    &&& enc_msgs(g.messages).is_prefix_of(s.skip(4 + enc_grid(g.map).len() as int))
    &&& enc_objs(g.inventory).is_prefix_of(
        s.skip(4 + enc_grid(g.map).len() as int + enc_msgs(g.messages).len() as int),
    )
    &&& enc_objs(objs).is_prefix_of(
        s.skip(
            4 + enc_grid(g.map).len() as int + enc_msgs(g.messages).len() as int + enc_objs(g.inventory).len() as int,
        ),
    )
    &&& s.len() == 4 + enc_grid(g.map).len() + enc_msgs(g.messages).len() + enc_objs(
        g.inventory,
    ).len() + enc_objs(objs).len()
}

#[verifier::rlimit(100)]
fn get_grid_full(bytes: &Vec<u8>, pos: usize) -> (r: Option<(LevelMap, usize)>)
    requires
        pos <= bytes@.len(),
    ensures
        r matches Some(p) ==> pos <= p.1 <= bytes@.len(),
        forall|g: Seq<Seq<Tile>>|
            grid_ok(g) && (#[trigger] enc_grid(g)).is_prefix_of(bytes@.skip(pos as int)) ==> (
            r matches Some(p) && grid_view(p.0@) == g && p.1 == pos + enc_grid(g).len()),
{
    let n = get_u64(bytes, pos);
    let (n, p1) = match n {
        Some(v) => v,
        None => {
            proof {
                assert forall|g: Seq<Seq<Tile>>| !(grid_ok(g) && (#[trigger] enc_grid(g)).is_prefix_of(
                    bytes@.skip(pos as int),
                )) by {
                    if grid_ok(g) && enc_grid(g).is_prefix_of(bytes@.skip(pos as int)) {
                        lemma_concat_prefix(bytes@, enc_u64(g.len() as u64), enc_cols(g), pos as int);
                        assert(false);
                    }
                }
            }
            return None;
        },
    };
    let cols = get_cols(bytes, p1, n);
    let (cols, p2) = match cols {
        Some(v) => v,
        None => {
            proof {
                assert forall|g: Seq<Seq<Tile>>| !(grid_ok(g) && (#[trigger] enc_grid(g)).is_prefix_of(
                    bytes@.skip(pos as int),
                )) by {
                    if grid_ok(g) && enc_grid(g).is_prefix_of(bytes@.skip(pos as int)) {
                        lemma_concat_prefix(bytes@, enc_u64(g.len() as u64), enc_cols(g), pos as int);
                        assert(n == g.len() as u64);
                        assert(g.len() == n);
                        assert(false);
                    }
                }
            }
            return None;
        },
    };
    proof {
        assert forall|g: Seq<Seq<Tile>>|
            grid_ok(g) && (#[trigger] enc_grid(g)).is_prefix_of(bytes@.skip(pos as int)) implies (
        grid_view(cols@) == g && p2 == pos + enc_grid(g).len()) by {
            lemma_concat_prefix(bytes@, enc_u64(g.len() as u64), enc_cols(g), pos as int);
            assert(n == g.len() as u64);
            assert(g.len() == n);
        }
    }
    Some((cols, p2))
}

#[verifier::rlimit(100)]
fn get_msgs_full(bytes: &Vec<u8>, pos: usize) -> (r: Option<(Vec<(String, Color)>, usize)>)
    requires
        pos <= bytes@.len(),
    ensures
        r matches Some(p) ==> pos <= p.1 <= bytes@.len(),
        forall|ms: Seq<(Seq<char>, Color)>|
            msgs_ok(ms) && (#[trigger] enc_msgs(ms)).is_prefix_of(bytes@.skip(pos as int)) ==> (
            r matches Some(p) && msgs_view(p.0@) == ms && p.1 == pos + enc_msgs(ms).len()),
{
    let n = get_u64(bytes, pos);
    let (n, p1) = match n {
        Some(v) => v,
        None => {
            proof {
                assert forall|ms: Seq<(Seq<char>, Color)>| !(msgs_ok(ms) && (
                #[trigger] enc_msgs(ms)).is_prefix_of(bytes@.skip(pos as int))) by {
                    if msgs_ok(ms) && enc_msgs(ms).is_prefix_of(bytes@.skip(pos as int)) {
                        lemma_concat_prefix(
                            bytes@,
                            enc_u64(ms.len() as u64),
                            enc_msgs_list(ms),
                            pos as int,
                        );
                        assert(false);
                    }
                }
            }
            return None;
        },
    };
    let ms = get_msgs_list(bytes, p1, n);
    let (ms, p2) = match ms {
        Some(v) => v,
        None => {
            proof {
                assert forall|msv: Seq<(Seq<char>, Color)>| !(msgs_ok(msv) && (
                #[trigger] enc_msgs(msv)).is_prefix_of(bytes@.skip(pos as int))) by {
                    if msgs_ok(msv) && enc_msgs(msv).is_prefix_of(bytes@.skip(pos as int)) {
                        lemma_concat_prefix(
                            bytes@,
                            enc_u64(msv.len() as u64),
                            enc_msgs_list(msv),
                            pos as int,
                        );
                        assert(n == msv.len() as u64);
                        assert(msv.len() == n);
                        assert(false);
                    }
                }
            }
            return None;
        },
    };
    proof {
        assert forall|msv: Seq<(Seq<char>, Color)>|
            msgs_ok(msv) && (#[trigger] enc_msgs(msv)).is_prefix_of(
                bytes@.skip(pos as int),
            ) implies (msgs_view(ms@) == msv && p2 == pos + enc_msgs(msv).len()) by {
            lemma_concat_prefix(bytes@, enc_u64(msv.len() as u64), enc_msgs_list(msv), pos as int);
            assert(n == msv.len() as u64);
            assert(msv.len() == n);
        }
    }
    Some((ms, p2))
}

} // verus!
