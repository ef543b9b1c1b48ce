use vstd::prelude::*;

verus! {

/// Dense handle of a declared struct, assigned in declaration order from 0.
#[derive(Debug, Clone, Copy, PartialEq, Eq, Structural, Hash)]
pub struct LayoutId(pub u32);

impl LayoutId {
    pub fn new(id: u32) -> (r: LayoutId)
        ensures
            r.0 == id,
    {
        LayoutId(id)
    }
}

/// The type of a field: a fixed-width scalar, or another struct by id.
#[derive(Debug, Clone, Copy, PartialEq, Eq, Structural)]
pub enum Type {
    Struct(LayoutId),
    I8,
    I16,
    I32,
    I64,
    F32,
    F64,
}

/// Byte width of a scalar type (0 for a struct reference).
pub open spec fn scalar_width(t: Type) -> nat {
    match t {
        Type::I8 => 1,
        Type::I16 => 2,
        Type::I32 => 4,
        Type::I64 => 8,
        Type::F32 => 4,
        Type::F64 => 8,
        Type::Struct(_) => 0,
    }
}

/// An ordered list of named, typed fields.
#[derive(Debug, Clone)]
pub struct Struct {
    pub fields: Vec<(String, Type)>,
}

/// The fields of a struct as (name, type) pairs.
pub type FieldsModel = Seq<(Seq<char>, Type)>;

impl Struct {
    pub open spec fn model(&self) -> FieldsModel {
        self.fields@.map_values(|p: (String, Type)| (p.0@, p.1))
    }
}

/// Abstract layout table: per id its fields, and per id its name.
pub struct TableModel {
    pub layouts: Seq<FieldsModel>,
    pub names: Seq<Seq<char>>,
}

/// Total byte size of a field list, each nested struct resolved with `fuel`
/// more levels of nesting available.
pub open spec fn fields_size(t: TableModel, fs: FieldsModel, fuel: nat) -> Option<nat>
    decreases fuel, fs.len(),
{
    if fs.len() == 0 {
        Some(0)
    } else {
        let ty = fs.last().1;
        let last = match ty {
            Type::Struct(id) => size_spec(t, id.0 as nat, fuel),
            _ => Some(scalar_width(ty)),
        };
        match (fields_size(t, fs.drop_last(), fuel), last) {
            (Some(a), Some(b)) => Some(a + b),
            _ => None,
        }
    }
}

/// Byte size of layout `id`, or None when the id is absent or its nesting is
/// deeper than `fuel` (which a cyclic layout always is).
pub open spec fn size_spec(t: TableModel, id: nat, fuel: nat) -> Option<nat>
    decreases fuel, 0nat,
{
    if fuel == 0 || id >= t.layouts.len() {
        None
    } else {
        fields_size(t, t.layouts[id as int], (fuel - 1) as nat)
    }
}

/// A size as the machine can report it.
pub open spec fn as_usize(o: Option<nat>) -> Option<usize> {
    match o {
        Some(n) => if n <= usize::MAX {
            Some(n as usize)
        } else {
            None
        },
        None => None,
    }
}

/// The layout table: struct definitions by id and struct names by id.
#[derive(Debug, Clone)]
pub struct Expr {
    pub layouts: Vec<Struct>,
    pub names: Vec<String>,
}

/// Index of the first occurrence of `n` in `names`.
pub open spec fn index_of_name(names: Seq<Seq<char>>, n: Seq<char>) -> Option<nat>
    decreases names.len(),
{
    if names.len() == 0 {
        None
    } else {
        match index_of_name(names.drop_last(), n) {
            Some(k) => Some(k),
            None => if names.last() == n {
                Some((names.len() - 1) as nat)
            } else {
                None
            },
        }
    }
}

pub proof fn lemma_index_of_name_prefix(names: Seq<Seq<char>>, n: Seq<char>, k: nat)
    requires
        k <= names.len(),
        index_of_name(names.subrange(0, k as int), n) is Some,
    ensures
        index_of_name(names, n) == index_of_name(names.subrange(0, k as int), n),
    decreases names.len(),
{
    if k < names.len() {
        assert(names.drop_last().subrange(0, k as int) =~= names.subrange(0, k as int));
        lemma_index_of_name_prefix(names.drop_last(), n, k);
    } else {
        assert(names.subrange(0, k as int) =~= names);
    }
}

/// The id registered for `n`, if any.
pub open spec fn id_of_name(t: TableModel, n: Seq<char>) -> Option<LayoutId> {
    match index_of_name(t.names, n) {
        Some(k) => Some(LayoutId(k as u32)),
        None => None,
    }
}

impl Expr {
    pub open spec fn model(&self) -> TableModel {
        TableModel {
            layouts: self.layouts@.map_values(|s: Struct| s.model()),
            names: self.names@.map_values(|s: String| s@),
        }
    }

    /// Ids are dense, each has a distinct name, and every struct reference
    /// points at a declared id.
    pub open spec fn wf(&self) -> bool {
        table_wf(self.model())
    }

    /// Number of nesting levels that resolution may descend.
    pub open spec fn depth(&self) -> nat {
        self.model().layouts.len()
    }

    /// The id of the struct declared under `name`.
    pub fn get_id(&self, name: &str) -> (r: Option<LayoutId>)
        requires
            self.wf(),
        ensures
            r == id_of_name(self.model(), name@),
    {
        let wanted: String = name.to_owned();
        let ghost names = self.model().names;
        let mut k: usize = 0;
        assert(names.subrange(0, 0).len() == 0);
        while k < self.names.len()
            invariant
                k <= self.names@.len(),
                names == self.model().names,
                names.len() <= u32::MAX,
                wanted@ == name@,
                index_of_name(names.subrange(0, k as int), name@) is None,
            decreases self.names@.len() - k,
        {
            assert(names.subrange(0, k + 1).drop_last() =~= names.subrange(0, k as int));
            if self.names[k].eq(&wanted) {
                proof {
                    lemma_index_of_name_prefix(names, name@, k as nat + 1);
                }
                return Some(LayoutId(k as u32));
            }
            k = k + 1;
        }
        assert(names.subrange(0, k as int) =~= names);
        None
    }

    /// The struct definition with the given id.
    pub fn get_type(&self, id: LayoutId) -> (r: Option<&Struct>)
        ensures
            r.is_some() == (id.0 < self.model().layouts.len()),
            r.is_some() ==> r.unwrap().model() == self.model().layouts[id.0 as int],
    {
        if (id.0 as usize) < self.layouts.len() {
            Some(&self.layouts[id.0 as usize])
        } else {
            None
        }
    }

    /// The struct definition declared under `name`.
    pub fn get(&self, name: &str) -> (r: Option<&Struct>)
        requires
            self.wf(),
        ensures
            r.is_some() == (id_of_name(self.model(), name@) is Some),
            r.is_some() ==> r.unwrap().model() == self.model().layouts[index_of_name(
                self.model().names,
                name@,
            ).unwrap() as int],
    {
        match self.get_id(name) {
            Some(id) => {
                proof {
                    lemma_index_of_name_found(self.model().names, name@);
                }
                self.get_type(id)
            },
            None => None,
        }
    }

    /// Number of declared structs.
    pub fn layout_count(&self) -> (r: usize)
        ensures
            r == self.model().layouts.len(),
    {
        self.layouts.len()
    }

    /// Name of the struct with the given id.
    pub fn name_of(&self, id: LayoutId) -> (r: Option<&String>)
        ensures
            (id.0 < self.model().names.len()) == r.is_some(),
            r.is_some() ==> r.unwrap()@ == self.model().names[id.0 as int],
    {
        if (id.0 as usize) < self.names.len() {
            Some(&self.names[id.0 as usize])
        } else {
            None
        }
    }

    /// Byte size of layout `id`, recursively summing field widths.
    pub fn size_of(&self, id: LayoutId) -> (r: Option<usize>)
        ensures
            r == as_usize(size_spec(self.model(), id.0 as nat, self.depth())),
    {
        self.size_with(id, self.layouts.len())
    }

    fn size_with(&self, id: LayoutId, fuel: usize) -> (r: Option<usize>)
        ensures
            r == as_usize(size_spec(self.model(), id.0 as nat, fuel as nat)),
        decreases fuel, 0nat,
    {
        if fuel == 0 || id.0 as usize >= self.layouts.len() {
            return None;
        }
        let fields = &self.layouts[id.0 as usize].fields;
        let ghost t = self.model();
        let ghost fs = t.layouts[id.0 as int];
        assert(fs == self.layouts@[id.0 as int].model());
        assert(size_spec(t, id.0 as nat, fuel as nat) == fields_size(t, fs, (fuel - 1) as nat));
        let mut total: usize = 0;
        let mut i: usize = 0;
        while i < fields.len()
            invariant
                i <= fields@.len(),
                fs == fields@.map_values(|p: (String, Type)| (p.0@, p.1)),
                fuel > 0,
                fields_size(t, fs.subrange(0, i as int), (fuel - 1) as nat) == Some(total as nat),
                t == self.model(),
                size_spec(t, id.0 as nat, fuel as nat) == fields_size(t, fs, (fuel - 1) as nat),
            decreases fields@.len() - i,
        {
            let ty = fields[i].1;
            let ghost pre = fs.subrange(0, i as int);
            let ghost next = fs.subrange(0, i + 1);
            assert(next.drop_last() =~= pre);
            assert(next.last().1 == ty);
            let w = match ty {
                Type::Struct(inner) => self.size_with(inner, fuel - 1),
                Type::I8 => Some(1),
                Type::I16 => Some(2),
                Type::I32 => Some(4),
                Type::I64 => Some(8),
                Type::F32 => Some(4),
                Type::F64 => Some(8),
            };
            match w {
                None => {
                    proof {
                        assert(fields_size(t, next, (fuel - 1) as nat) is None
                            || fields_size(t, next, (fuel - 1) as nat)->0 > usize::MAX);
                        lemma_fields_size_prefix(t, fs, (fuel - 1) as nat, i as nat + 1);
                    }
                    return None;
                },
                Some(w) => match total.checked_add(w) {
                    None => {
                        proof {
                            lemma_fields_size_prefix(t, fs, (fuel - 1) as nat, i as nat + 1);
                        }
                        return None;
                    },
                    Some(s) => {
                        total = s;
                    },
                },
            }
            i = i + 1;
        }
        assert(fs.subrange(0, fields@.len() as int) =~= fs);
        Some(total)
    }
}

proof fn lemma_index_of_name_found(names: Seq<Seq<char>>, n: Seq<char>)
    ensures
        index_of_name(names, n) is Some ==> index_of_name(names, n)->0 < names.len()
            && names[index_of_name(names, n)->0 as int] == n,
    decreases names.len(),
{
    if names.len() > 0 {
        lemma_index_of_name_found(names.drop_last(), n);
    }
}

proof fn lemma_index_of_distinct(names: Seq<Seq<char>>, k: nat)
    requires
        k < names.len(),
        forall|i: int, j: int| 0 <= i < j < names.len() ==> names[i] != names[j],
    ensures
        index_of_name(names, names[k as int]) == Some(k),
    decreases names.len(),
{
    let pre = names.drop_last();
    lemma_index_of_name_found(pre, names[k as int]);
    if k + 1 < names.len() {
        assert(pre[k as int] == names[k as int]);
        lemma_index_of_distinct(pre, k);
    } else if index_of_name(pre, names[k as int]) is Some {
        let i = index_of_name(pre, names[k as int])->0;
        assert(names[i as int] == pre[i as int]);
    }
}

/// In a well-formed table, looking up the name of id `k` gives back `k`:
/// names and ids correspond one to one.
pub proof fn law_name_lookup(e: &Expr, k: u32)
    requires
        e.wf(),
        k < e.model().names.len(),
    ensures
        id_of_name(e.model(), e.model().names[k as int]) == Some(LayoutId(k)),
{
    lemma_index_of_distinct(e.model().names, k as nat);
}

pub open spec fn table_wf(t: TableModel) -> bool {
    &&& t.layouts.len() == t.names.len()
    &&& t.layouts.len() <= u32::MAX
    &&& forall|i: int, j: int|
        0 <= i < t.layouts.len() && 0 <= j < t.layouts[i].len() ==> match #[trigger] t.layouts[i][j].1 {
            Type::Struct(id) => id.0 < t.layouts.len(),
            _ => true,
        }
    &&& forall|i: int, j: int| 0 <= i < j < t.names.len() ==> t.names[i] != t.names[j]
}

/// A prefix of a field list whose total size is known has a known size that
/// is no larger.
pub proof fn lemma_fields_size_prefix(t: TableModel, fs: FieldsModel, fuel: nat, k: nat)
    requires
        k <= fs.len(),
    ensures
        fields_size(t, fs, fuel) is Some ==> (fields_size(t, fs.subrange(0, k as int), fuel) is Some
            && fields_size(t, fs.subrange(0, k as int), fuel)->0 <= fields_size(t, fs, fuel)->0),
    decreases fs.len(),
{
    if k < fs.len() {
        lemma_fields_size_prefix(t, fs.drop_last(), fuel, k);
        assert(fs.drop_last().subrange(0, k as int) =~= fs.subrange(0, k as int));
    } else {
        assert(fs.subrange(0, k as int) =~= fs);
    }
}

} // verus!
