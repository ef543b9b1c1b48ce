use vstd::prelude::*;
use crate::layout::{Expr, FieldsModel, LayoutId, TableModel, Type, scalar_width};
use crate::value::{Value, ValueModel, fields_model, le_uint, pow256, lemma_pow256_8};

verus! {

/// Why a buffer could not be decoded.
#[derive(Debug, Clone, Copy, PartialEq, Eq, Structural)]
pub enum DecodeError {
    /// The buffer ended before a field could be read.
    InsufficientData,
    /// An id is absent from the table, or its nesting never ends.
    UnresolvedLayout,
}

/// `u`, read as a two's-complement number of `w` bytes.
pub open spec fn signed(u: nat, w: nat) -> int {
    if 2 * u >= pow256(w) {
        u - pow256(w)
    } else {
        u as int
    }
}

/// The scalar of type `ty` whose little-endian bytes are `b`.
pub open spec fn leaf_of(ty: Type, b: Seq<u8>) -> ValueModel {
    match ty {
        Type::I8 => ValueModel::I8(signed(le_uint(b), 1) as i64),
        Type::I16 => ValueModel::I16(signed(le_uint(b), 2) as i64),
        Type::I32 => ValueModel::I32(signed(le_uint(b), 4) as i64),
        Type::I64 => ValueModel::I64(signed(le_uint(b), 8) as i64),
        Type::F32 => ValueModel::F32(le_uint(b) as u32),
        _ => ValueModel::F64(le_uint(b) as u64),
    }
}

/// Decodes one field of type `ty` from the front of `b`: the value and the
/// number of bytes consumed.
pub open spec fn decode_type(t: TableModel, b: Seq<u8>, ty: Type, fuel: nat) -> Result<
    (ValueModel, nat),
    DecodeError,
>
    decreases fuel, 1nat,
{
    match ty {
        Type::Struct(id) => decode_spec(t, b, id.0 as nat, fuel),
        _ => if b.len() < scalar_width(ty) {
            Err(DecodeError::InsufficientData)
        } else {
            Ok((leaf_of(ty, b.take(scalar_width(ty) as int)), scalar_width(ty)))
        },
    }
}

/// Decodes the fields `fs` in order from the front of `b`.
pub open spec fn decode_fields(t: TableModel, b: Seq<u8>, fs: FieldsModel, fuel: nat) -> Result<
    (Seq<(Seq<char>, ValueModel)>, nat),
    DecodeError,
>
    decreases fuel, fs.len() + 2,
{
    if fs.len() == 0 {
        Ok((Seq::empty(), 0))
    } else {
        match decode_fields(t, b, fs.drop_last(), fuel) {
            Err(e) => Err(e),
            Ok((vs, n)) => match decode_type(t, b.skip(n as int), fs.last().1, fuel) {
                Err(e) => Err(e),
                Ok((v, m)) => Ok((vs.push((fs.last().0, v)), n + m)),
            },
        }
    }
}

/// Decodes layout `id` from the front of `b`, with `fuel` levels of nesting.
pub open spec fn decode_spec(t: TableModel, b: Seq<u8>, id: nat, fuel: nat) -> Result<
    (ValueModel, nat),
    DecodeError,
>
    decreases fuel, 0nat,
{
    if fuel == 0 || id >= t.layouts.len() {
        Err(DecodeError::UnresolvedLayout)
    } else {
        match decode_fields(t, b, t.layouts[id as int], (fuel - 1) as nat) {
            Err(e) => Err(e),
            Ok((vs, n)) => Ok((ValueModel::Struct(vs), n)),
        }
    }
}

pub proof fn lemma_le_uint_bound(b: Seq<u8>)
    ensures
        le_uint(b) < pow256(b.len()),
    decreases b.len(),
{
    if b.len() > 0 {
        lemma_le_uint_bound(b.skip(1));
    }
}

pub proof fn lemma_pow256_mono(a: nat, c: nat)
    requires
        a <= c,
    ensures
        pow256(a) <= pow256(c),
    decreases c,
{
    if a < c {
        lemma_pow256_mono(a, (c - 1) as nat);
    }
}

/// The unsigned number stored little-endian in `buf[start..start + w]`.
fn get_le(buf: &[u8], start: usize, w: usize) -> (r: u64)
    requires
        start + w <= buf@.len(),
        w <= 8,
    ensures
        r as nat == le_uint(buf@.subrange(start as int, start + w)),
{
    let mut x: u64 = 0;
    let mut k: usize = w;
    assert(buf@.subrange(start + w, start + w).len() == 0);
    assert(pow256(0) == 1);
    while k > 0
        invariant
            k <= w <= 8,
            start + w <= buf@.len(),
            buf@.len() == buf.len(),
            x as nat == le_uint(buf@.subrange(start + k, start + w)),
            x < pow256((w - k) as nat),
        decreases k,
    {
        let ghost sub = buf@.subrange(start + k - 1, start + w);
        assert(sub.skip(1) =~= buf@.subrange(start + k, start + w));
        proof {
            lemma_pow256_mono((w - k + 1) as nat, 8);
            lemma_pow256_8();
        }
        let idx: usize = start + (k - 1);
        x = x * 256 + buf[idx] as u64;
        k = k - 1;
    }
    x
}

/// Reads the scalar of type `ty` at `buf[off..]`.
fn read_leaf(buf: &[u8], off: usize, ty: Type) -> (r: Value)
    requires
        !(ty is Struct),
        off + scalar_width(ty) <= buf@.len(),
    ensures
        r.model() == leaf_of(ty, buf@.subrange(off as int, off + scalar_width(ty))),
{
    let w: usize = match ty {
        Type::I8 => 1,
        Type::I16 => 2,
        Type::I32 | Type::F32 => 4,
        _ => 8,
    };
    let u = get_le(buf, off, w);
    proof {
        lemma_le_uint_bound(buf@.subrange(off as int, off + w));
        lemma_pow256_8();
        reveal_with_fuel(pow256, 5);
    }
    match ty {
        Type::I8 => Value::I8(if u >= 128 { u as i64 - 256 } else { u as i64 }),
        Type::I16 => Value::I16(if u >= 32768 { u as i64 - 65536 } else { u as i64 }),
        Type::I32 => Value::I32(if u >= 0x8000_0000 { u as i64 - 0x1_0000_0000 } else { u as i64 }),
        Type::I64 => Value::I64(
            if u >= 0x8000_0000_0000_0000 {
                (u - 0x8000_0000_0000_0000) as i64 - 0x7fff_ffff_ffff_ffff - 1
            } else {
                u as i64
            },
        ),
        Type::F32 => Value::F32(u as u32),
        _ => Value::F64(u),
    }
}

impl Expr {
    /// Decodes a value of layout `id` from the front of `buf`.
    pub fn read_value(&self, buf: &[u8], id: LayoutId) -> (r: Result<Value, DecodeError>)
        ensures
            match decode_spec(self.model(), buf@, id.0 as nat, self.depth()) {
                Ok((v, _)) => r is Ok && r->Ok_0.model() == v,
                Err(e) => r == Err::<Value, DecodeError>(e),
            },
    {
        assert(buf@.skip(0) =~= buf@);
        match self.read_at(buf, 0, id, self.layouts.len()) {
            Ok((v, _)) => Ok(v),
            Err(e) => Err(e),
        }
    }

    fn read_at(&self, buf: &[u8], start: usize, id: LayoutId, fuel: usize) -> (r: Result<
        (Value, usize),
        DecodeError,
    >)
        requires
            start <= buf@.len(),
        ensures
            match decode_spec(self.model(), buf@.skip(start as int), id.0 as nat, fuel as nat) {
                Ok((v, n)) => r is Ok && r->Ok_0.0.model() == v && r->Ok_0.1 == n && start + n
                    <= buf@.len(),
                Err(e) => r == Err::<(Value, usize), DecodeError>(e),
            },
        decreases fuel, 0nat,
    {
        if fuel == 0 || id.0 as usize >= self.layouts.len() {
            return Err(DecodeError::UnresolvedLayout);
        }
        let ghost t = self.model();
        let ghost b = buf@.skip(start as int);
        let layout = &self.layouts[id.0 as usize].fields;
        let ghost fs = t.layouts[id.0 as int];
        assert(fs == self.layouts@[id.0 as int].model());
        let ghost f1 = (fuel - 1) as nat;
        let mut vals: Vec<(String, Value)> = Vec::new();
        let mut off: usize = start;
        let mut i: usize = 0;
        assert(fs.subrange(0, 0).len() == 0);
        while i < layout.len()
            invariant
                i <= layout@.len(),
                t == self.model(),
                b == buf@.skip(start as int),
                fs == layout@.map_values(|p: (String, Type)| (p.0@, p.1)),
                fuel > 0,
                f1 == fuel - 1,
                start <= off <= buf@.len(),
                buf@.len() == buf.len(),
                decode_fields(t, b, fs.subrange(0, i as int), f1) == Ok::<
                    (Seq<(Seq<char>, ValueModel)>, nat),
                    DecodeError,
                >((fields_model(vals@), (off - start) as nat)),
                decode_spec(t, b, id.0 as nat, fuel as nat) == match decode_fields(t, b, fs, f1) {
                    Err(e) => Err(e),
                    Ok((vs, n)) => Ok((ValueModel::Struct(vs), n)),
                },
            decreases layout@.len() - i,
        {
            let ghost pre = fs.subrange(0, i as int);
            let ghost next = fs.subrange(0, i + 1);
            assert(next.drop_last() =~= pre);
            let ty = layout[i].1;
            assert(next.last().1 == ty);
            assert(b.skip((off - start) as int) =~= buf@.skip(off as int));
            let v = match ty {
                Type::Struct(inner) => match self.read_at(buf, off, inner, fuel - 1) {
                    Ok((v, n)) => {
                        assert(off + n <= buf@.len());
                        off = off + n;
                        v
                    },
                    Err(e) => {
                        proof {
                            assert(decode_type(t, b.skip((off - start) as int), ty, f1)
                                == decode_spec(t, buf@.skip(off as int), inner.0 as nat, f1));
                            assert(decode_fields(t, b, next, f1) == Err::<
                                (Seq<(Seq<char>, ValueModel)>, nat),
                                DecodeError,
                            >(e));
                            lemma_decode_fields_prefix(t, b, fs, f1, i as nat + 1);
                        }
                        return Err(e);
                    },
                },
                _ => {
                    let w: usize = match ty {
                        Type::I8 => 1,
                        Type::I16 => 2,
                        Type::I32 | Type::F32 => 4,
                        _ => 8,
                    };
                    if buf.len() - off < w {
                        proof {
                            lemma_decode_fields_prefix(t, b, fs, f1, i as nat + 1);
                        }
                        return Err(DecodeError::InsufficientData);
                    }
                    let v = read_leaf(buf, off, ty);
                    assert(buf@.skip(off as int).take(w as int) =~= buf@.subrange(off as int, off + w));
                    off = off + w;
                    v
                },
            };
            let name = layout[i].0.clone();
            let ghost old_vals = vals@;
            vals.push((name, v));
            assert(vals@.drop_last() =~= old_vals);
            i = i + 1;
        }
        assert(fs.subrange(0, i as int) =~= fs);
        Ok((Value::Struct { fields: vals }, off - start))
    }
}

/// Once a prefix of the fields fails to decode, the whole list fails the same way.
pub proof fn lemma_decode_fields_prefix(
    t: TableModel,
    b: Seq<u8>,
    fs: FieldsModel,
    fuel: nat,
    k: nat,
)
    requires
        k <= fs.len(),
        decode_fields(t, b, fs.subrange(0, k as int), fuel) is Err,
    ensures
        decode_fields(t, b, fs, fuel) == decode_fields(t, b, fs.subrange(0, k as int), fuel),
    decreases fs.len(),
{
    if k < fs.len() {
        assert(fs.drop_last().subrange(0, k as int) =~= fs.subrange(0, k as int));
        lemma_decode_fields_prefix(t, b, fs.drop_last(), fuel, k);
    } else {
        assert(fs.subrange(0, k as int) =~= fs);
    }
}

} // verus!
