use vstd::prelude::*;
use vstd::arithmetic::div_mod::{lemma_breakdown, lemma_mod_multiples_vanish, lemma_small_mod};
use crate::decode::{DecodeError, decode_fields, decode_spec, decode_type, signed};
use crate::layout::{Expr, FieldsModel, LayoutId, TableModel, Type, fields_size, scalar_width, size_spec};
use crate::value::{
    Value, ValueModel, encode_fields, encode_spec, le_bytes, le_uint, lemma_le_bytes_len,
    lemma_pow256_pos, pow256, twos,
};

verus! {

/// `x` fits in `w` bytes of two's complement.
pub open spec fn in_range(x: i64, w: nat) -> bool {
    -(pow256(w) as int) <= 2 * x < pow256(w)
}

/// `v` has the shape of a field of type `ty`, with every integer leaf within
/// its declared width.
pub open spec fn conforms_type(t: TableModel, v: ValueModel, ty: Type, fuel: nat) -> bool
    decreases fuel, 1nat,
{
    match ty {
        Type::Struct(id) => conforms(t, v, id.0 as nat, fuel),
        Type::I8 => v is I8 && in_range(v->I8_0, 1),
        Type::I16 => v is I16 && in_range(v->I16_0, 2),
        Type::I32 => v is I32 && in_range(v->I32_0, 4),
        Type::I64 => v is I64,
        Type::F32 => v is F32,
        Type::F64 => v is F64,
    }
}

/// The named values `vs` match the field list `fs` one for one.
pub open spec fn conforms_fields(
    t: TableModel,
    vs: Seq<(Seq<char>, ValueModel)>,
    fs: FieldsModel,
    fuel: nat,
) -> bool
    decreases fuel, fs.len() + 2,
{
    &&& vs.len() == fs.len()
    &&& fs.len() > 0 ==> {
        &&& conforms_fields(t, vs.drop_last(), fs.drop_last(), fuel)
        &&& vs.last().0 == fs.last().0
        &&& conforms_type(t, vs.last().1, fs.last().1, fuel)
    }
}

/// `v` is a struct value built against layout `id`, nested at most `fuel` deep.
pub open spec fn conforms(t: TableModel, v: ValueModel, id: nat, fuel: nat) -> bool
    decreases fuel, 0nat,
{
    &&& fuel > 0
    &&& id < t.layouts.len()
    &&& match v {
        ValueModel::Struct(vs) => conforms_fields(t, vs, t.layouts[id as int], (fuel - 1) as nat),
        _ => false,
    }
}

proof fn lemma_le_uint_of_bytes(n: nat, w: nat)
    ensures
        le_uint(le_bytes(n, w)) == n % pow256(w),
    decreases w,
{
    if w == 0 {
        assert(le_bytes(n, 0).len() == 0);
    } else {
        let rest = le_bytes(n / 256, (w - 1) as nat);
        lemma_le_uint_of_bytes(n / 256, (w - 1) as nat);
        assert(le_bytes(n, w).skip(1) =~= rest);
        lemma_pow256_pos((w - 1) as nat);
        lemma_breakdown(n as int, 256, pow256((w - 1) as nat) as int);
    }
}

/// Narrowing an in-range integer to `w` bytes and reading it back is the identity.
proof fn lemma_signed_twos(x: i64, w: nat)
    requires
        w == 1 || w == 2 || w == 4 || w == 8,
        in_range(x, w),
    ensures
        signed(twos(x) % pow256(w), w) == x,
{
    reveal_with_fuel(pow256, 9);
    let m = pow256(w) as int;
    if x >= 0 {
        lemma_small_mod(x as nat, m as nat);
    } else {
        let k: int = if w == 1 {
            0xff_ffff_ffff_ffff
        } else if w == 2 {
            0xffff_ffff_ffff
        } else if w == 4 {
            0xffff_ffff
        } else {
            0
        };
        assert(m * k + (x + m) == x + 0x1_0000_0000_0000_0000);
        lemma_mod_multiples_vanish(k, x + m, m);
        lemma_small_mod((x + m) as nat, m as nat);
    }
}

proof fn lemma_leaf(t: TableModel, v: ValueModel, ty: Type, fuel: nat, rest: Seq<u8>)
    requires
        !(ty is Struct),
        conforms_type(t, v, ty, fuel),
    ensures
        decode_type(t, encode_spec(v) + rest, ty, fuel) == Ok::<(ValueModel, nat), DecodeError>((v, encode_spec(v).len())),
        encode_spec(v).len() == scalar_width(ty),
{
    let w = scalar_width(ty);
    let n: nat = match v {
        ValueModel::I8(x) => twos(x),
        ValueModel::I16(x) => twos(x),
        ValueModel::I32(x) => twos(x),
        ValueModel::I64(x) => twos(x),
        ValueModel::F32(x) => x as nat,
        ValueModel::F64(x) => x as nat,
        _ => 0,
    };
    assert(encode_spec(v) == le_bytes(n, w));
    lemma_le_bytes_len(n, w);
    assert((encode_spec(v) + rest).take(w as int) =~= encode_spec(v));
    lemma_le_uint_of_bytes(n, w);
    reveal_with_fuel(pow256, 9);
    match v {
        ValueModel::I8(x) => lemma_signed_twos(x, 1),
        ValueModel::I16(x) => lemma_signed_twos(x, 2),
        ValueModel::I32(x) => lemma_signed_twos(x, 4),
        ValueModel::I64(x) => {
            assert(in_range(x, 8));
            lemma_signed_twos(x, 8);
        },
        ValueModel::F32(x) => lemma_small_mod(x as nat, pow256(4)),
        ValueModel::F64(x) => lemma_small_mod(x as nat, pow256(8)),
        _ => {},
    }
}

proof fn lemma_codec_type(t: TableModel, v: ValueModel, ty: Type, fuel: nat, rest: Seq<u8>)
    requires
        conforms_type(t, v, ty, fuel),
    ensures
        decode_type(t, encode_spec(v) + rest, ty, fuel) == Ok::<(ValueModel, nat), DecodeError>((v, encode_spec(v).len())),
        match ty {
            Type::Struct(id) => size_spec(t, id.0 as nat, fuel) == Some(encode_spec(v).len()),
            _ => encode_spec(v).len() == scalar_width(ty),
        },
    decreases fuel, 1nat,
{
    match ty {
        Type::Struct(id) => lemma_codec(t, v, id.0 as nat, fuel, rest),
        _ => lemma_leaf(t, v, ty, fuel, rest),
    }
}

proof fn lemma_codec_fields(
    t: TableModel,
    vs: Seq<(Seq<char>, ValueModel)>,
    fs: FieldsModel,
    fuel: nat,
    rest: Seq<u8>,
)
    requires
        conforms_fields(t, vs, fs, fuel),
    ensures
        decode_fields(t, encode_fields(vs) + rest, fs, fuel) == Ok::<(Seq<(Seq<char>, ValueModel)>, nat), DecodeError>((vs, encode_fields(vs).len())),
        fields_size(t, fs, fuel) == Some(encode_fields(vs).len()),
    decreases fuel, fs.len() + 2,
{
    if fs.len() == 0 {
        assert(vs =~= Seq::<(Seq<char>, ValueModel)>::empty());
    } else {
        let pre = vs.drop_last();
        let last = vs.last();
        let tail = encode_spec(last.1) + rest;
        assert(encode_fields(vs) + rest =~= encode_fields(pre) + tail);
        lemma_codec_fields(t, pre, fs.drop_last(), fuel, tail);
        assert((encode_fields(pre) + tail).skip(encode_fields(pre).len() as int) =~= tail);
        lemma_codec_type(t, last.1, fs.last().1, fuel, rest);
        assert(pre.push((fs.last().0, last.1)) =~= vs);
    }
}

proof fn lemma_codec(t: TableModel, v: ValueModel, id: nat, fuel: nat, rest: Seq<u8>)
    requires
        conforms(t, v, id, fuel),
    ensures
        decode_spec(t, encode_spec(v) + rest, id, fuel) == Ok::<(ValueModel, nat), DecodeError>((v, encode_spec(v).len())),
        size_spec(t, id, fuel) == Some(encode_spec(v).len()),
    decreases fuel, 0nat,
{
    match v {
        ValueModel::Struct(vs) => {
            lemma_codec_fields(t, vs, t.layouts[id as int], (fuel - 1) as nat, rest);
        },
        _ => {},
    }
}

/// Decoding the encoding of a value built against layout `id`, with every
/// integer leaf within its declared width, gives the value back and consumes
/// exactly the encoded bytes.
pub proof fn law_decode_encode(e: &Expr, v: &Value, id: LayoutId)
    requires
        conforms(e.model(), v.model(), id.0 as nat, e.depth()),
    ensures
        decode_spec(e.model(), encode_spec(v.model()), id.0 as nat, e.depth()) == Ok::<(ValueModel, nat), DecodeError>(
            (v.model(), encode_spec(v.model()).len()),
        ),
{
    lemma_codec(e.model(), v.model(), id.0 as nat, e.depth(), Seq::empty());
    assert(encode_spec(v.model()) + Seq::<u8>::empty() =~= encode_spec(v.model()));
}

/// A value built against layout `id` encodes to exactly the layout's size.
pub proof fn law_encoded_len(e: &Expr, v: &Value, id: LayoutId)
    requires
        conforms(e.model(), v.model(), id.0 as nat, e.depth()),
    ensures
        size_spec(e.model(), id.0 as nat, e.depth()) == Some(encode_spec(v.model()).len()),
{
    lemma_codec(e.model(), v.model(), id.0 as nat, e.depth(), Seq::empty());
}

} // verus!
