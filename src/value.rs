use vstd::prelude::*;

verus! {

broadcast use vstd::std_specs::vec::axiom_vec_decreases_to_view,
    vstd::std_specs::vec::axiom_vec_index_decreases;

/// A data value: a scalar leaf tagged with its declared width, or a struct
/// node holding named sub-values in order. Integer leaves are widened to
/// `i64`; floating-point leaves hold the IEEE-754 bit pattern of their width.
#[derive(Debug)]
pub enum Value {
    Struct { fields: Vec<(String, Value)> },
    I8(i64),
    I16(i64),
    I32(i64),
    I64(i64),
    F32(u32),
    F64(u64),
}

/// Abstract value tree.
pub enum ValueModel {
    Struct(Seq<(Seq<char>, ValueModel)>),
    I8(i64),
    I16(i64),
    I32(i64),
    I64(i64),
    F32(u32),
    F64(u64),
}

pub open spec fn fields_model(fs: Seq<(String, Value)>) -> Seq<(Seq<char>, ValueModel)>
    decreases fs,
{
    if fs.len() == 0 {
        Seq::empty()
    } else {
        fields_model(fs.drop_last()).push((fs.last().0@, fs.last().1.model()))
    }
}

impl Value {
    pub open spec fn model(&self) -> ValueModel
        decreases self,
    {
        match self {
            Value::Struct { fields } => ValueModel::Struct(fields_model(fields@)),
            Value::I8(x) => ValueModel::I8(*x),
            Value::I16(x) => ValueModel::I16(*x),
            Value::I32(x) => ValueModel::I32(*x),
            Value::I64(x) => ValueModel::I64(*x),
            Value::F32(x) => ValueModel::F32(*x),
            Value::F64(x) => ValueModel::F64(*x),
        }
    }
}

pub proof fn lemma_fields_model(fs: Seq<(String, Value)>)
    ensures
        fields_model(fs).len() == fs.len(),
        forall|i: int|
            0 <= i < fs.len() ==> #[trigger] fields_model(fs)[i] == (fs[i].0@, fs[i].1.model()),
    decreases fs.len(),
{
    if fs.len() > 0 {
        lemma_fields_model(fs.drop_last());
    }
}

pub open spec fn pow256(n: nat) -> nat
    decreases n,
{
    if n == 0 {
        1
    } else {
        256 * pow256((n - 1) as nat)
    }
}

/// The low `w` bytes of `n`, least significant first.
pub open spec fn le_bytes(n: nat, w: nat) -> Seq<u8>
    decreases w,
{
    if w == 0 {
        Seq::empty()
    } else {
        seq![(n % 256) as u8] + le_bytes(n / 256, (w - 1) as nat)
    }
}

/// The unsigned number whose little-endian bytes are `b`.
pub open spec fn le_uint(b: Seq<u8>) -> nat
    decreases b.len(),
{
    if b.len() == 0 {
        0
    } else {
        b[0] as nat + 256 * le_uint(b.skip(1))
    }
}

/// The 64-bit two's-complement pattern of `v`, as a number.
pub open spec fn twos(v: i64) -> nat {
    if v >= 0 {
        v as nat
    } else {
        (v + pow256(8)) as nat
    }
}

/// Bytes of a value: each leaf narrowed to its declared width, fields in order.
pub open spec fn encode_spec(v: ValueModel) -> Seq<u8>
    decreases v,
{
    match v {
        ValueModel::Struct(fs) => encode_fields(fs),
        ValueModel::I8(x) => le_bytes(twos(x), 1),
        ValueModel::I16(x) => le_bytes(twos(x), 2),
        ValueModel::I32(x) => le_bytes(twos(x), 4),
        ValueModel::I64(x) => le_bytes(twos(x), 8),
        ValueModel::F32(x) => le_bytes(x as nat, 4),
        ValueModel::F64(x) => le_bytes(x as nat, 8),
    }
}

pub open spec fn encode_fields(fs: Seq<(Seq<char>, ValueModel)>) -> Seq<u8>
    decreases fs,
{
    if fs.len() == 0 {
        Seq::empty()
    } else {
        encode_fields(fs.drop_last()) + encode_spec(fs.last().1)
    }
}

pub proof fn lemma_le_bytes_len(n: nat, w: nat)
    ensures
        le_bytes(n, w).len() == w,
    decreases w,
{
    if w > 0 {
        lemma_le_bytes_len(n / 256, (w - 1) as nat);
    }
}

/// Appending the byte at position `k` extends the `k` low bytes.
proof fn lemma_le_bytes_step(n: nat, k: nat)
    ensures
        le_bytes(n, k + 1) == le_bytes(n, k).push(((n / pow256(k)) % 256) as u8),
    decreases k,
{
    if k > 0 {
        lemma_le_bytes_step(n / 256, (k - 1) as nat);
        lemma_pow256_pos((k - 1) as nat);
        vstd::arithmetic::div_mod::lemma_div_denominator(n as int, 256, pow256((k - 1) as nat) as int);
        assert(le_bytes(n, k + 1) =~= le_bytes(n, k).push(((n / pow256(k)) % 256) as u8));
    } else {
        assert(pow256(0) == 1);
        assert(le_bytes(n / 256, 0) == Seq::<u8>::empty());
        assert(le_bytes(n, 1) =~= le_bytes(n, 0).push(((n / pow256(0)) % 256) as u8));
    }
}

pub proof fn lemma_pow256_pos(k: nat)
    ensures
        pow256(k) > 0,
    decreases k,
{
    if k > 0 {
        lemma_pow256_pos((k - 1) as nat);
    }
}

pub proof fn lemma_pow256_8()
    ensures
        pow256(8) == 0x1_0000_0000_0000_0000,
{
    reveal_with_fuel(pow256, 9);
}

/// The 64-bit two's-complement pattern of `x`.
fn twos_of(x: i64) -> (r: u64)
    ensures
        r as nat == twos(x),
{
    proof {
        lemma_pow256_8();
    }
    if x >= 0 {
        x as u64
    } else {
        ((x + 0x7fff_ffff_ffff_ffff + 1) as u64) + 0x8000_0000_0000_0000
    }
}

/// Appends the `w` low bytes of `n`, least significant first.
fn put_le(out: &mut Vec<u8>, n: u64, w: usize)
    ensures
        final(out)@ == old(out)@ + le_bytes(n as nat, w as nat),
{
    let mut x: u64 = n;
    let mut k: usize = 0;
    assert(pow256(0) == 1);
    assert(old(out)@ + le_bytes(n as nat, 0) =~= old(out)@);
    while k < w
        invariant
            k <= w,
            out@ == old(out)@ + le_bytes(n as nat, k as nat),
            x as nat == n as nat / pow256(k as nat),
        decreases w - k,
    {
        proof {
            lemma_le_bytes_step(n as nat, k as nat);
            lemma_pow256_pos(k as nat);
            vstd::arithmetic::div_mod::lemma_div_denominator(n as int, pow256(k as nat) as int, 256);
            assert(pow256(k as nat) * 256 == pow256(k as nat + 1)) by (nonlinear_arith)
                requires pow256(k as nat + 1) == 256 * pow256(k as nat);
        }
        out.push((x % 256) as u8);
        x = x / 256;
        k = k + 1;
        assert(out@ =~= old(out)@ + le_bytes(n as nat, k as nat));
    }
}

impl Value {
    /// Number of bytes of the encoding: the sum of the leaf widths.
    pub fn size(&self) -> (r: usize)
        requires
            encode_spec(self.model()).len() <= usize::MAX,
        ensures
            r == encode_spec(self.model()).len(),
        decreases self,
    {
        proof {
            lemma_le_bytes_len(0, 1);
        }
        match self {
            Value::I8(x) => {
                proof { lemma_le_bytes_len(twos(*x), 1); }
                1
            },
            Value::I16(x) => {
                proof { lemma_le_bytes_len(twos(*x), 2); }
                2
            },
            Value::I32(x) => {
                proof { lemma_le_bytes_len(twos(*x), 4); }
                4
            },
            Value::I64(x) => {
                proof { lemma_le_bytes_len(twos(*x), 8); }
                8
            },
            Value::F32(x) => {
                proof { lemma_le_bytes_len(*x as nat, 4); }
                4
            },
            Value::F64(x) => {
                proof { lemma_le_bytes_len(*x as nat, 8); }
                8
            },
            Value::Struct { fields } => {
                let ghost m = fields_model(fields@);
                proof {
                    lemma_fields_model(fields@);
                }
                let mut total: usize = 0;
                let mut i: usize = 0;
                while i < fields.len()
                    invariant
                        i <= fields@.len(),
                        self is Struct,
                        self->fields == *fields,
                        m == fields_model(fields@),
                        m.len() == fields@.len(),
                        forall|j: int| 0 <= j < fields@.len() ==> #[trigger] m[j] == (fields@[j].0@, fields@[j].1.model()),
                        encode_fields(m).len() <= usize::MAX,
                        total == encode_fields(m.subrange(0, i as int)).len(),
                    decreases fields@.len() - i,
                {
                    proof {
                        assert(m.subrange(0, i + 1).drop_last() =~= m.subrange(0, i as int));
                        lemma_encode_fields_prefix(m, i as nat + 1);
                    }
                    proof {
                        assert(decreases_to!(fields => fields[i as int]));
                        assert(decreases_to!(fields[i as int] => fields[i as int].1));
                        assert(decreases_to!(self => fields[i as int].1));
                    }
                    let s = fields[i].1.size();
                    total = total + s;
                    i = i + 1;
                }
                assert(m.subrange(0, i as int) =~= m);
                total
            },
        }
    }

    /// Appends the encoding of this value to `out`.
    fn write_into(&self, out: &mut Vec<u8>)
        ensures
            final(out)@ == old(out)@ + encode_spec(self.model()),
        decreases self,
    {
        match self {
            Value::I8(x) => put_le(out, twos_of(*x), 1),
            Value::I16(x) => put_le(out, twos_of(*x), 2),
            Value::I32(x) => put_le(out, twos_of(*x), 4),
            Value::I64(x) => put_le(out, twos_of(*x), 8),
            Value::F32(x) => put_le(out, *x as u64, 4),
            Value::F64(x) => put_le(out, *x, 8),
            Value::Struct { fields } => {
                let ghost m = fields_model(fields@);
                proof {
                    lemma_fields_model(fields@);
                }
                let mut i: usize = 0;
                assert(m.subrange(0, 0) =~= Seq::<(Seq<char>, ValueModel)>::empty());
                assert(old(out)@ + encode_fields(m.subrange(0, 0)) =~= old(out)@);
                while i < fields.len()
                    invariant
                        i <= fields@.len(),
                        self is Struct,
                        self->fields == *fields,
                        m == fields_model(fields@),
                        m.len() == fields@.len(),
                        forall|j: int| 0 <= j < fields@.len() ==> #[trigger] m[j] == (fields@[j].0@, fields@[j].1.model()),
                        out@ == old(out)@ + encode_fields(m.subrange(0, i as int)),
                    decreases fields@.len() - i,
                {
                    assert(m.subrange(0, i + 1).drop_last() =~= m.subrange(0, i as int));
                    proof {
                        assert(decreases_to!(fields => fields[i as int]));
                        assert(decreases_to!(fields[i as int] => fields[i as int].1));
                        assert(decreases_to!(self => fields[i as int].1));
                    }
                    fields[i].1.write_into(out);
                    i = i + 1;
                    assert(out@ =~= old(out)@ + encode_fields(m.subrange(0, i as int)));
                }
                assert(m.subrange(0, i as int) =~= m);
            },
        }
    }

    /// The packed little-endian encoding of this value.
    pub fn encode_value(&self) -> (r: Vec<u8>)
        requires
            encode_spec(self.model()).len() <= usize::MAX,
        ensures
            r@ == encode_spec(self.model()),
    {
        let mut buf: Vec<u8> = Vec::with_capacity(self.size());
        self.write_into(&mut buf);
        assert(buf@ =~= encode_spec(self.model()));
        buf
    }
}

/// The encoding of a prefix of the fields is no longer than the whole.
pub proof fn lemma_encode_fields_prefix(fs: Seq<(Seq<char>, ValueModel)>, k: nat)
    requires
        k <= fs.len(),
    ensures
        encode_fields(fs.subrange(0, k as int)).len() <= encode_fields(fs).len(),
    decreases fs.len(),
{
    if k < fs.len() {
        lemma_encode_fields_prefix(fs.drop_last(), k);
        assert(fs.drop_last().subrange(0, k as int) =~= fs.subrange(0, k as int));
    } else {
        assert(fs.subrange(0, k as int) =~= fs);
    }
}

} // verus!
