use vstd::prelude::*;
use crate::layout::{Expr, FieldsModel, LayoutId, TableModel, Type};
use crate::value::{Value, ValueModel, fields_model};

verus! {

/// One user-supplied leaf: an integer, or the IEEE-754 bit pattern of a
/// 32- or 64-bit floating-point number.
#[derive(Debug, Clone, Copy, PartialEq, Eq, Structural)]
pub enum Scalar {
    Int(i64),
    Float32(u32),
    Float64(u64),
}

/// Why a value could not be built from the supplied leaves.
#[derive(Debug, Clone, Copy, PartialEq, Eq, Structural)]
pub enum BuildError {
    /// A leaf is missing, of the wrong kind for its field, or left over.
    InvalidInput,
    /// An id is absent from the table, or its nesting never ends.
    UnresolvedLayout,
}

/// The leaf value a field of type `ty` takes from `s`, if the kinds agree.
pub open spec fn leaf_from(ty: Type, s: Scalar) -> Option<ValueModel> {
    match (ty, s) {
        (Type::I8, Scalar::Int(x)) => Some(ValueModel::I8(x)),
        (Type::I16, Scalar::Int(x)) => Some(ValueModel::I16(x)),
        (Type::I32, Scalar::Int(x)) => Some(ValueModel::I32(x)),
        (Type::I64, Scalar::Int(x)) => Some(ValueModel::I64(x)),
        (Type::F32, Scalar::Float32(b)) => Some(ValueModel::F32(b)),
        (Type::F64, Scalar::Float64(b)) => Some(ValueModel::F64(b)),
        _ => None,
    }
}

/// Builds a field of type `ty` from the front of `xs`: the value and the
/// number of leaves used.
pub open spec fn build_type(t: TableModel, xs: Seq<Scalar>, ty: Type, fuel: nat) -> Result<
    (ValueModel, nat),
    BuildError,
>
    decreases fuel, 1nat,
{
    match ty {
        Type::Struct(id) => build_spec(t, xs, id.0 as nat, fuel),
        _ => if xs.len() == 0 {
            Err(BuildError::InvalidInput)
        } else {
            match leaf_from(ty, xs[0]) {
                Some(v) => Ok((v, 1)),
                None => Err(BuildError::InvalidInput),
            }
        },
    }
}

pub open spec fn build_fields(t: TableModel, xs: Seq<Scalar>, fs: FieldsModel, fuel: nat) -> Result<
    (Seq<(Seq<char>, ValueModel)>, nat),
    BuildError,
>
    decreases fuel, fs.len() + 2,
{
    if fs.len() == 0 {
        Ok((Seq::empty(), 0))
    } else {
        match build_fields(t, xs, fs.drop_last(), fuel) {
            Err(e) => Err(e),
            Ok((vs, n)) => match build_type(t, xs.skip(n as int), fs.last().1, fuel) {
                Err(e) => Err(e),
                Ok((v, m)) => Ok((vs.push((fs.last().0, v)), n + m)),
            },
        }
    }
}

/// Builds a value of layout `id` from the front of `xs`, fields in
/// declaration order, depth first.
pub open spec fn build_spec(t: TableModel, xs: Seq<Scalar>, id: nat, fuel: nat) -> Result<
    (ValueModel, nat),
    BuildError,
>
    decreases fuel, 0nat,
{
    if fuel == 0 || id >= t.layouts.len() {
        Err(BuildError::UnresolvedLayout)
    } else {
        match build_fields(t, xs, t.layouts[id as int], (fuel - 1) as nat) {
            Err(e) => Err(e),
            Ok((vs, n)) => Ok((ValueModel::Struct(vs), n)),
        }
    }
}

/// The value of layout `id` whose leaves are exactly `xs`, in order.
pub open spec fn assemble_spec(t: TableModel, xs: Seq<Scalar>, id: nat, fuel: nat) -> Result<
    ValueModel,
    BuildError,
> {
    match build_spec(t, xs, id, fuel) {
        Err(e) => Err(e),
        Ok((v, n)) => if n == xs.len() {
            Ok(v)
        } else {
            Err(BuildError::InvalidInput)
        },
    }
}

proof fn lemma_build_fields_prefix(t: TableModel, xs: Seq<Scalar>, fs: FieldsModel, fuel: nat, k: nat)
    requires
        k <= fs.len(),
        build_fields(t, xs, fs.subrange(0, k as int), fuel) is Err,
    ensures
        build_fields(t, xs, fs, fuel) == build_fields(t, xs, fs.subrange(0, k as int), fuel),
    decreases fs.len(),
{
    if k < fs.len() {
        assert(fs.drop_last().subrange(0, k as int) =~= fs.subrange(0, k as int));
        lemma_build_fields_prefix(t, xs, fs.drop_last(), fuel, k);
    } else {
        assert(fs.subrange(0, k as int) =~= fs);
    }
}

impl Expr {
    /// Builds a value of layout `id` from its leaves, supplied in declaration
    /// order (depth first). Fails with `InvalidInput` when a leaf has the
    /// wrong kind for its field, or when leaves are missing or left over.
    pub fn build_value(&self, id: LayoutId, leaves: &[Scalar]) -> (r: Result<Value, BuildError>)
        ensures
            match assemble_spec(self.model(), leaves@, id.0 as nat, self.depth()) {
                Ok(v) => r is Ok && r->Ok_0.model() == v,
                Err(e) => r == Err::<Value, BuildError>(e),
            },
    {
        assert(leaves@.skip(0) =~= leaves@);
        match self.build_at(leaves, 0, id, self.layouts.len()) {
            Ok((v, n)) => {
                if n == leaves.len() {
                    Ok(v)
                } else {
                    Err(BuildError::InvalidInput)
                }
            },
            Err(e) => Err(e),
        }
    }

    fn build_at(&self, xs: &[Scalar], start: usize, id: LayoutId, fuel: usize) -> (r: Result<
        (Value, usize),
        BuildError,
    >)
        requires
            start <= xs@.len(),
        ensures
            match build_spec(self.model(), xs@.skip(start as int), id.0 as nat, fuel as nat) {
                Ok((v, n)) => r is Ok && r->Ok_0.0.model() == v && r->Ok_0.1 == n && start + n
                    <= xs@.len(),
                Err(e) => r == Err::<(Value, usize), BuildError>(e),
            },
        decreases fuel, 0nat,
    {
        if fuel == 0 || id.0 as usize >= self.layouts.len() {
            return Err(BuildError::UnresolvedLayout);
        }
        let ghost t = self.model();
        let ghost b = xs@.skip(start as int);
        let layout = &self.layouts[id.0 as usize].fields;
        let ghost fs = t.layouts[id.0 as int];
        assert(fs == self.layouts@[id.0 as int].model());
        let ghost f1 = (fuel - 1) as nat;
        let mut vals: Vec<(String, Value)> = Vec::new();
        let mut off: usize = start;
        let mut i: usize = 0;
        assert(fs.subrange(0, 0).len() == 0);
        while i < layout.len()
            invariant
                i <= layout@.len(),
                t == self.model(),
                b == xs@.skip(start as int),
                fs == layout@.map_values(|p: (String, Type)| (p.0@, p.1)),
                fuel > 0,
                f1 == fuel - 1,
                start <= off <= xs@.len(),
                xs@.len() == xs.len(),
                build_fields(t, b, fs.subrange(0, i as int), f1) == Ok::<
                    (Seq<(Seq<char>, ValueModel)>, nat),
                    BuildError,
                >((fields_model(vals@), (off - start) as nat)),
                build_spec(t, b, id.0 as nat, fuel as nat) == match build_fields(t, b, fs, f1) {
                    Err(e) => Err(e),
                    Ok((vs, n)) => Ok((ValueModel::Struct(vs), n)),
                },
            decreases layout@.len() - i,
        {
            let ghost pre = fs.subrange(0, i as int);
            let ghost next = fs.subrange(0, i + 1);
            assert(next.drop_last() =~= pre);
            let ty = layout[i].1;
            assert(next.last().1 == ty);
            assert(b.skip((off - start) as int) =~= xs@.skip(off as int));
            let v = match ty {
                Type::Struct(inner) => match self.build_at(xs, off, inner, fuel - 1) {
                    Ok((v, n)) => {
                        assert(off + n <= xs@.len());
                        off = off + n;
                        v
                    },
                    Err(e) => {
                        proof {
                            assert(build_type(t, b.skip((off - start) as int), ty, f1)
                                == build_spec(t, xs@.skip(off as int), inner.0 as nat, f1));
                            assert(build_fields(t, b, next, f1) == Err::<
                                (Seq<(Seq<char>, ValueModel)>, nat),
                                BuildError,
                            >(e));
                            lemma_build_fields_prefix(t, b, fs, f1, i as nat + 1);
                        }
                        return Err(e);
                    },
                },
                _ => {
                    if off == xs.len() {
                        proof {
                            lemma_build_fields_prefix(t, b, fs, f1, i as nat + 1);
                        }
                        return Err(BuildError::InvalidInput);
                    }
                    assert(xs@.skip(off as int)[0] == xs@[off as int]);
                    let leaf = match (ty, xs[off]) {
                        (Type::I8, Scalar::Int(x)) => Value::I8(x),
                        (Type::I16, Scalar::Int(x)) => Value::I16(x),
                        (Type::I32, Scalar::Int(x)) => Value::I32(x),
                        (Type::I64, Scalar::Int(x)) => Value::I64(x),
                        (Type::F32, Scalar::Float32(x)) => Value::F32(x),
                        (Type::F64, Scalar::Float64(x)) => Value::F64(x),
                        _ => {
                            proof {
                                lemma_build_fields_prefix(t, b, fs, f1, i as nat + 1);
                            }
                            return Err(BuildError::InvalidInput);
                        },
                    };
                    assert(leaf_from(ty, xs@[off as int]) == Some(leaf.model()));
                    assert(build_type(t, b.skip((off - start) as int), ty, f1) == Ok::<(ValueModel, nat), BuildError>((leaf.model(), 1)));
                    off = off + 1;
                    leaf
                },
            };
            let name = layout[i].0.clone();
            let ghost old_vals = vals@;
            vals.push((name, v));
            assert(vals@.drop_last() =~= old_vals);
            i = i + 1;
        }
        assert(fs.subrange(0, i as int) =~= fs);
        Ok((Value::Struct { fields: vals }, off - start))
    }
}

/// A leaf field's path (the field names from the top struct down) and type.
pub type LeafModel = (Seq<Seq<char>>, Type);

pub open spec fn path_model(p: Seq<String>) -> Seq<Seq<char>> {
    p.map_values(|s: String| s@)
}

pub open spec fn leaves_model(v: Seq<(Vec<String>, Type)>) -> Seq<LeafModel> {
    v.map_values(|l: (Vec<String>, Type)| (path_model(l.0@), l.1))
}

pub open spec fn leaves_type(t: TableModel, path: Seq<Seq<char>>, ty: Type, fuel: nat) -> Result<
    Seq<LeafModel>,
    BuildError,
>
    decreases fuel, 1nat,
{
    match ty {
        Type::Struct(id) => leaves_spec(t, path, id.0 as nat, fuel),
        _ => Ok(seq![(path, ty)]),
    }
}

pub open spec fn leaves_fields(t: TableModel, prefix: Seq<Seq<char>>, fs: FieldsModel, fuel: nat) -> Result<
    Seq<LeafModel>,
    BuildError,
>
    decreases fuel, fs.len() + 2,
{
    if fs.len() == 0 {
        Ok(Seq::empty())
    } else {
        match leaves_fields(t, prefix, fs.drop_last(), fuel) {
            Err(e) => Err(e),
            Ok(ls) => match leaves_type(t, prefix.push(fs.last().0), fs.last().1, fuel) {
                Err(e) => Err(e),
                Ok(more) => Ok(ls + more),
            },
        }
    }
}

/// The scalar leaves of layout `id`, depth first in declaration order, each
/// with its path below `prefix`.
pub open spec fn leaves_spec(t: TableModel, prefix: Seq<Seq<char>>, id: nat, fuel: nat) -> Result<
    Seq<LeafModel>,
    BuildError,
>
    decreases fuel, 0nat,
{
    if fuel == 0 || id >= t.layouts.len() {
        Err(BuildError::UnresolvedLayout)
    } else {
        leaves_fields(t, prefix, t.layouts[id as int], (fuel - 1) as nat)
    }
}

proof fn lemma_leaves_fields_prefix(t: TableModel, prefix: Seq<Seq<char>>, fs: FieldsModel, fuel: nat, k: nat)
    requires
        k <= fs.len(),
        leaves_fields(t, prefix, fs.subrange(0, k as int), fuel) is Err,
    ensures
        leaves_fields(t, prefix, fs, fuel) == leaves_fields(t, prefix, fs.subrange(0, k as int), fuel),
    decreases fs.len(),
{
    if k < fs.len() {
        assert(fs.drop_last().subrange(0, k as int) =~= fs.subrange(0, k as int));
        lemma_leaves_fields_prefix(t, prefix, fs.drop_last(), fuel, k);
    } else {
        assert(fs.subrange(0, k as int) =~= fs);
    }
}

fn extend_path(prefix: &Vec<String>, name: &String) -> (r: Vec<String>)
    ensures
        path_model(r@) == path_model(prefix@).push(name@),
{
    let mut r: Vec<String> = Vec::new();
    let mut k: usize = 0;
    while k < prefix.len()
        invariant
            k <= prefix@.len(),
            r@.len() == k,
            forall|j: int| 0 <= j < k ==> (#[trigger] r@[j])@ == prefix@[j]@,
        decreases prefix@.len() - k,
    {
        r.push(prefix[k].clone());
        k = k + 1;
    }
    r.push(name.clone());
    assert(path_model(r@) =~= path_model(prefix@).push(name@));
    r
}

impl Expr {
    /// The scalar leaves of layout `id` in the order `build_value` takes
    /// them, each with the field names that lead to it.
    pub fn leaf_fields(&self, id: LayoutId) -> (r: Result<Vec<(Vec<String>, Type)>, BuildError>)
        ensures
            match leaves_spec(self.model(), Seq::empty(), id.0 as nat, self.depth()) {
                Ok(ls) => r is Ok && leaves_model(r->Ok_0@) == ls,
                Err(e) => r is Err && r->Err_0 == e,
            },
    {
        let mut out: Vec<(Vec<String>, Type)> = Vec::new();
        let prefix: Vec<String> = Vec::new();
        assert(path_model(prefix@) =~= Seq::<Seq<char>>::empty());
        match self.leaves_at(&prefix, id, self.layouts.len(), &mut out) {
            Ok(()) => {
                assert(leaves_model(out@) =~= Seq::<LeafModel>::empty() + leaves_model(out@));
                Ok(out)
            },
            Err(e) => Err(e),
        }
    }

    fn leaves_at(&self, prefix: &Vec<String>, id: LayoutId, fuel: usize, out: &mut Vec<(Vec<String>, Type)>) -> (r: Result<(), BuildError>)
        ensures
            match leaves_spec(self.model(), path_model(prefix@), id.0 as nat, fuel as nat) {
                Ok(ls) => r is Ok && leaves_model(final(out)@) == leaves_model(old(out)@) + ls,
                Err(e) => r == Err::<(), BuildError>(e),
            },
        decreases fuel, 0nat,
    {
        if fuel == 0 || id.0 as usize >= self.layouts.len() {
            return Err(BuildError::UnresolvedLayout);
        }
        let ghost t = self.model();
        let ghost pm = path_model(prefix@);
        let layout = &self.layouts[id.0 as usize].fields;
        let ghost fs = t.layouts[id.0 as int];
        assert(fs == self.layouts@[id.0 as int].model());
        let ghost f1 = (fuel - 1) as nat;
        let ghost start = leaves_model(out@);
        let mut i: usize = 0;
        assert(fs.subrange(0, 0).len() == 0);
        assert(start =~= start + Seq::<LeafModel>::empty());
        while i < layout.len()
            invariant
                i <= layout@.len(),
                t == self.model(),
                pm == path_model(prefix@),
                fs == layout@.map_values(|p: (String, Type)| (p.0@, p.1)),
                fuel > 0,
                f1 == fuel - 1,
                leaves_fields(t, pm, fs.subrange(0, i as int), f1) is Ok,
                leaves_model(out@) == start + leaves_fields(t, pm, fs.subrange(0, i as int), f1)->Ok_0,
                leaves_spec(t, pm, id.0 as nat, fuel as nat) == leaves_fields(t, pm, fs, f1),
            decreases layout@.len() - i,
        {
            let ghost pre = fs.subrange(0, i as int);
            let ghost next = fs.subrange(0, i + 1);
            let ghost before = leaves_model(out@);
            assert(next.drop_last() =~= pre);
            let ty = layout[i].1;
            assert(next.last().1 == ty);
            let path = extend_path(prefix, &layout[i].0);
            assert(path_model(path@) == pm.push(next.last().0));
            match ty {
                Type::Struct(inner) => match self.leaves_at(&path, inner, fuel - 1, out) {
                    Ok(()) => {},
                    Err(e) => {
                        proof {
                            assert(leaves_type(t, pm.push(next.last().0), ty, f1) == leaves_spec(t, path_model(path@), inner.0 as nat, f1));
                            assert(leaves_fields(t, pm, next, f1) == Err::<Seq<LeafModel>, BuildError>(e));
                            lemma_leaves_fields_prefix(t, pm, fs, f1, i as nat + 1);
                        }
                        return Err(e);
                    },
                },
                _ => {
                    out.push((path, ty));
                    assert(leaves_model(out@) =~= before + seq![(path_model(path@), ty)]);
                },
            }
            proof {
                let more = leaves_type(t, pm.push(next.last().0), ty, f1);
                assert(more is Ok);
                assert(leaves_fields(t, pm, next, f1) == Ok::<Seq<LeafModel>, BuildError>(leaves_fields(t, pm, pre, f1)->Ok_0 + more->Ok_0));
                assert(leaves_model(out@) =~= before + more->Ok_0);
                assert(leaves_model(out@) =~= start + leaves_fields(t, pm, next, f1)->Ok_0);
            }
            i = i + 1;
        }
        assert(fs.subrange(0, i as int) =~= fs);
        Ok(())
    }
}

} // verus!
