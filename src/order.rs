//! Properties of the value order: it is zero exactly on equal values, it
//! flips sign when its arguments swap, and it is transitive.
use vstd::prelude::*;
use vstd::utf8::{decode_utf8, encode_utf8, encode_utf8_decode_utf8};
use crate::json::{JsonV, cmp_bytes, cmp_fields, cmp_items, cmp_json, cmp_text, rank};

verus! {

pub proof fn lemma_cmp_bytes_zero(a: Seq<u8>, b: Seq<u8>)
    ensures
        (cmp_bytes(a, b) == 0) == (a == b),
    decreases a.len(),
{
    if a.len() > 0 && b.len() > 0 && a[0] == b[0] {
        let ta = a.subrange(1, a.len() as int);
        let tb = b.subrange(1, b.len() as int);
        lemma_cmp_bytes_zero(ta, tb);
        if ta == tb {
            assert forall|i: int| 0 <= i < a.len() implies a[i] == b[i] by {
                if i > 0 {
                    assert(a[i] == ta[i - 1]);
                    assert(b[i] == tb[i - 1]);
                }
            }
            assert(a =~= b);
        }
    } else if a.len() == 0 && b.len() == 0 {
        assert(a =~= b);
    }
}

pub proof fn lemma_cmp_text_zero(a: Seq<char>, b: Seq<char>)
    ensures
        (cmp_text(a, b) == 0) == (a == b),
{
    lemma_cmp_bytes_zero(encode_utf8(a), encode_utf8(b));
    if encode_utf8(a) == encode_utf8(b) {
        encode_utf8_decode_utf8(a);
        encode_utf8_decode_utf8(b);
    }
}

/// The value order is zero exactly on equal values.
pub proof fn lemma_cmp_json_zero(a: JsonV, b: JsonV)
    ensures
        (cmp_json(a, b) == 0) == (a == b),
    decreases a,
{
    if rank(a) == rank(b) {
        match a {
            JsonV::Number(x) => lemma_cmp_text_zero(x, b->Number_0),
            JsonV::Str(x) => lemma_cmp_text_zero(x, b->Str_0),
            JsonV::Array(xs) => lemma_cmp_items_zero(xs, b->Array_0),
            JsonV::Object(xs) => lemma_cmp_fields_zero(xs, b->Object_0),
            _ => {},
        }
    }
}

pub proof fn lemma_cmp_items_zero(xs: Seq<JsonV>, ys: Seq<JsonV>)
    ensures
        (cmp_items(xs, ys) == 0) == (xs == ys),
    decreases xs,
{
    if xs.len() > 0 && ys.len() > 0 {
        let tx = xs.subrange(1, xs.len() as int);
        let ty = ys.subrange(1, ys.len() as int);
        lemma_cmp_json_zero(xs[0], ys[0]);
        lemma_cmp_items_zero(tx, ty);
        if xs[0] == ys[0] && tx == ty {
            assert forall|i: int| 0 <= i < xs.len() implies xs[i] == ys[i] by {
                if i > 0 {
                    assert(xs[i] == tx[i - 1]);
                    assert(ys[i] == ty[i - 1]);
                }
            }
            assert(xs =~= ys);
        }
    } else if xs.len() == 0 && ys.len() == 0 {
        assert(xs =~= ys);
    }
}

pub proof fn lemma_cmp_fields_zero(xs: Seq<(Seq<char>, JsonV)>, ys: Seq<(Seq<char>, JsonV)>)
    ensures
        (cmp_fields(xs, ys) == 0) == (xs == ys),
    decreases xs,
{
    if xs.len() > 0 && ys.len() > 0 {
        let tx = xs.subrange(1, xs.len() as int);
        let ty = ys.subrange(1, ys.len() as int);
        lemma_cmp_text_zero(xs[0].0, ys[0].0);
        lemma_cmp_json_zero(xs[0].1, ys[0].1);
        lemma_cmp_fields_zero(tx, ty);
        if xs[0] == ys[0] && tx == ty {
            assert forall|i: int| 0 <= i < xs.len() implies xs[i] == ys[i] by {
                if i > 0 {
                    assert(xs[i] == tx[i - 1]);
                    assert(ys[i] == ty[i - 1]);
                }
            }
            assert(xs =~= ys);
        }
    } else if xs.len() == 0 && ys.len() == 0 {
        assert(xs =~= ys);
    }
}

pub proof fn lemma_cmp_bytes_swap(a: Seq<u8>, b: Seq<u8>)
    ensures
        cmp_bytes(a, b) == -cmp_bytes(b, a),
        -1 <= cmp_bytes(a, b) <= 1,
    decreases a.len(),
{
    if a.len() > 0 && b.len() > 0 && a[0] == b[0] {
        lemma_cmp_bytes_swap(a.subrange(1, a.len() as int), b.subrange(1, b.len() as int));
    }
}

pub proof fn lemma_cmp_bytes_trans(a: Seq<u8>, b: Seq<u8>, c: Seq<u8>)
    requires
        cmp_bytes(a, b) < 0,
        cmp_bytes(b, c) < 0,
    ensures
        cmp_bytes(a, c) < 0,
    decreases a.len(),
{
    if a.len() > 0 && b.len() > 0 && c.len() > 0 && a[0] == b[0] && b[0] == c[0] {
        lemma_cmp_bytes_trans(
            a.subrange(1, a.len() as int),
            b.subrange(1, b.len() as int),
            c.subrange(1, c.len() as int),
        );
    }
}

pub proof fn lemma_cmp_text_swap(a: Seq<char>, b: Seq<char>)
    ensures
        cmp_text(a, b) == -cmp_text(b, a),
        -1 <= cmp_text(a, b) <= 1,
{
    lemma_cmp_bytes_swap(encode_utf8(a), encode_utf8(b));
}

pub proof fn lemma_cmp_text_trans(a: Seq<char>, b: Seq<char>, c: Seq<char>)
    requires
        cmp_text(a, b) < 0,
        cmp_text(b, c) < 0,
    ensures
        cmp_text(a, c) < 0,
{
    lemma_cmp_bytes_trans(encode_utf8(a), encode_utf8(b), encode_utf8(c));
}

/// The value order flips sign when its arguments swap.
pub proof fn lemma_cmp_json_swap(a: JsonV, b: JsonV)
    ensures
        cmp_json(a, b) == -cmp_json(b, a),
    decreases a,
{
    if rank(a) == rank(b) {
        match a {
            JsonV::Number(x) => lemma_cmp_text_swap(x, b->Number_0),
            JsonV::Str(x) => lemma_cmp_text_swap(x, b->Str_0),
            JsonV::Array(xs) => lemma_cmp_items_swap(xs, b->Array_0),
            JsonV::Object(xs) => lemma_cmp_fields_swap(xs, b->Object_0),
            _ => {},
        }
    }
}

pub proof fn lemma_cmp_items_swap(xs: Seq<JsonV>, ys: Seq<JsonV>)
    ensures
        cmp_items(xs, ys) == -cmp_items(ys, xs),
    decreases xs,
{
    if xs.len() > 0 && ys.len() > 0 {
        lemma_cmp_json_swap(xs[0], ys[0]);
        lemma_cmp_items_swap(xs.subrange(1, xs.len() as int), ys.subrange(1, ys.len() as int));
    }
}

pub proof fn lemma_cmp_fields_swap(xs: Seq<(Seq<char>, JsonV)>, ys: Seq<(Seq<char>, JsonV)>)
    ensures
        cmp_fields(xs, ys) == -cmp_fields(ys, xs),
    decreases xs,
{
    if xs.len() > 0 && ys.len() > 0 {
        lemma_cmp_text_swap(xs[0].0, ys[0].0);
        lemma_cmp_json_swap(xs[0].1, ys[0].1);
        lemma_cmp_fields_swap(xs.subrange(1, xs.len() as int), ys.subrange(1, ys.len() as int));
    }
}

/// The value order is transitive.
pub proof fn lemma_cmp_json_trans(a: JsonV, b: JsonV, c: JsonV)
    requires
        cmp_json(a, b) < 0,
        cmp_json(b, c) < 0,
    ensures
        cmp_json(a, c) < 0,
    decreases a,
{
    if rank(a) == rank(b) && rank(b) == rank(c) {
        match a {
            JsonV::Number(x) => lemma_cmp_text_trans(x, b->Number_0, c->Number_0),
            JsonV::Str(x) => lemma_cmp_text_trans(x, b->Str_0, c->Str_0),
            JsonV::Array(xs) => lemma_cmp_items_trans(xs, b->Array_0, c->Array_0),
            JsonV::Object(xs) => lemma_cmp_fields_trans(xs, b->Object_0, c->Object_0),
            _ => {},
        }
    }
}

pub proof fn lemma_cmp_items_trans(xs: Seq<JsonV>, ys: Seq<JsonV>, zs: Seq<JsonV>)
    requires
        cmp_items(xs, ys) < 0,
        cmp_items(ys, zs) < 0,
    ensures
        cmp_items(xs, zs) < 0,
    decreases xs,
{
    if xs.len() > 0 && ys.len() > 0 && zs.len() > 0 {
        lemma_cmp_json_zero(xs[0], ys[0]);
        lemma_cmp_json_zero(ys[0], zs[0]);
        lemma_cmp_json_zero(xs[0], zs[0]);
        if cmp_json(xs[0], ys[0]) == 0 && cmp_json(ys[0], zs[0]) == 0 {
            lemma_cmp_items_trans(
                xs.subrange(1, xs.len() as int),
                ys.subrange(1, ys.len() as int),
                zs.subrange(1, zs.len() as int),
            );
        } else if cmp_json(xs[0], ys[0]) != 0 && cmp_json(ys[0], zs[0]) != 0 {
            lemma_cmp_json_trans(xs[0], ys[0], zs[0]);
        }
    }
}

pub proof fn lemma_cmp_fields_trans(
    xs: Seq<(Seq<char>, JsonV)>,
    ys: Seq<(Seq<char>, JsonV)>,
    zs: Seq<(Seq<char>, JsonV)>,
)
    requires
        cmp_fields(xs, ys) < 0,
        cmp_fields(ys, zs) < 0,
    ensures
        cmp_fields(xs, zs) < 0,
    decreases xs,
{
    if xs.len() > 0 && ys.len() > 0 && zs.len() > 0 {
        let (kx, vx) = xs[0];
        let (ky, vy) = ys[0];
        let (kz, vz) = zs[0];
        lemma_cmp_text_zero(kx, ky);
        lemma_cmp_text_zero(ky, kz);
        lemma_cmp_text_zero(kx, kz);
        lemma_cmp_json_zero(vx, vy);
        lemma_cmp_json_zero(vy, vz);
        lemma_cmp_json_zero(vx, vz);
        if cmp_text(kx, ky) != 0 && cmp_text(ky, kz) != 0 {
            lemma_cmp_text_trans(kx, ky, kz);
        } else if cmp_text(kx, ky) == 0 && cmp_text(ky, kz) == 0 {
            if cmp_json(vx, vy) != 0 && cmp_json(vy, vz) != 0 {
                lemma_cmp_json_trans(vx, vy, vz);
            } else if cmp_json(vx, vy) == 0 && cmp_json(vy, vz) == 0 {
                lemma_cmp_fields_trans(
                    xs.subrange(1, xs.len() as int),
                    ys.subrange(1, ys.len() as int),
                    zs.subrange(1, zs.len() as int),
                );
            }
        }
    }
}

} // verus!
