use vstd::prelude::*;
use vstd::string::StringSliceAdditionalSpecFns;
use crate::hex::push_char;
use crate::layout::{Expr, FieldsModel, LayoutId, Struct, TableModel, Type, table_wf};
use crate::syntax::{FieldSyntax, Span, StructSyntax, defs_match, fields_match, parse_syntax, span_of, span_ok, syntax_of};

verus! {

/// Why a schema was rejected.
#[derive(Debug)]
pub enum ParseError {
    /// The text breaks the grammar; the byte offset where it stopped matching.
    Syntax(usize),
    /// A field's type is neither a scalar keyword nor a declared struct.
    UnknownType(String),
    /// Two structs are declared with the same name.
    DuplicateStruct(String),
}

pub enum ParseErrorModel {
    Syntax(nat),
    UnknownType(Seq<char>),
    DuplicateStruct(Seq<char>),
}

impl ParseError {
    pub open spec fn model(&self) -> ParseErrorModel {
        match self {
            ParseError::Syntax(p) => ParseErrorModel::Syntax(*p as nat),
            ParseError::UnknownType(s) => ParseErrorModel::UnknownType(s@),
            ParseError::DuplicateStruct(s) => ParseErrorModel::DuplicateStruct(s@),
        }
    }
}

/// An identifier's bytes as characters.
pub open spec fn chars_of(s: Seq<u8>) -> Seq<char> {
    s.map_values(|c: u8| c as char)
}

/// The scalar type a keyword names, if it is one.
pub open spec fn scalar_keyword(s: Seq<u8>) -> Option<Type> {
    if s == seq![105u8, 56u8] {
        Some(Type::I8)
    } else if s == seq![105u8, 49u8, 54u8] {
        Some(Type::I16)
    } else if s == seq![105u8, 51u8, 50u8] {
        Some(Type::I32)
    } else if s == seq![105u8, 54u8, 52u8] {
        Some(Type::I64)
    } else if s == seq![102u8, 51u8, 50u8] {
        Some(Type::F32)
    } else if s == seq![102u8, 54u8, 52u8] {
        Some(Type::F64)
    } else {
        None
    }
}

/// Index of the first occurrence of `s` in `names`.
pub open spec fn find_name(names: Seq<Seq<u8>>, s: Seq<u8>) -> Option<nat>
    decreases names.len(),
{
    if names.len() == 0 {
        None
    } else {
        match find_name(names.drop_last(), s) {
            Some(k) => Some(k),
            None => if names.last() == s {
                Some((names.len() - 1) as nat)
            } else {
                None
            },
        }
    }
}

/// A type name resolved against the declared struct names.
pub open spec fn resolve_type(names: Seq<Seq<u8>>, s: Seq<u8>) -> Option<Type> {
    match scalar_keyword(s) {
        Some(t) => Some(t),
        None => match find_name(names, s) {
            Some(k) => Some(Type::Struct(LayoutId(k as u32))),
            None => None,
        },
    }
}

/// Resolved fields, or the first type name that resolves to nothing.
pub open spec fn resolve_fields(names: Seq<Seq<u8>>, fs: Seq<FieldSyntax>) -> Result<FieldsModel, Seq<u8>>
    decreases fs.len(),
{
    if fs.len() == 0 {
        Ok(Seq::empty())
    } else {
        match resolve_fields(names, fs.drop_last()) {
            Err(e) => Err(e),
            Ok(r) => match resolve_type(names, fs.last().1) {
                None => Err(fs.last().1),
                Some(t) => Ok(r.push((chars_of(fs.last().0), t))),
            },
        }
    }
}

/// Resolved definitions, or the first type name that resolves to nothing.
pub open spec fn resolve_structs(names: Seq<Seq<u8>>, ds: Seq<StructSyntax>) -> Result<Seq<FieldsModel>, Seq<u8>>
    decreases ds.len(),
{
    if ds.len() == 0 {
        Ok(Seq::empty())
    } else {
        match resolve_structs(names, ds.drop_last()) {
            Err(e) => Err(e),
            Ok(r) => match resolve_fields(names, ds.last().1) {
                Err(e) => Err(e),
                Ok(fs) => Ok(r.push(fs)),
            },
        }
    }
}

/// The first name that repeats an earlier one.
pub open spec fn first_duplicate(names: Seq<Seq<u8>>) -> Option<Seq<u8>>
    decreases names.len(),
{
    if names.len() == 0 {
        None
    } else {
        match first_duplicate(names.drop_last()) {
            Some(d) => Some(d),
            None => if names.drop_last().contains(names.last()) {
                Some(names.last())
            } else {
                None
            },
        }
    }
}

pub open spec fn def_names(ds: Seq<StructSyntax>) -> Seq<Seq<u8>> {
    ds.map_values(|d: StructSyntax| d.0)
}

/// The layout table a schema describes, or why it is rejected.
pub open spec fn parse_spec(b: Seq<u8>) -> Result<TableModel, ParseErrorModel> {
    match parse_syntax(b) {
        Err(p) => Err(ParseErrorModel::Syntax(p)),
        Ok(ds) => {
            let names = def_names(ds);
            match first_duplicate(names) {
                Some(d) => Err(ParseErrorModel::DuplicateStruct(chars_of(d))),
                None => match resolve_structs(names, ds) {
                    Err(n) => Err(ParseErrorModel::UnknownType(chars_of(n))),
                    Ok(ls) => Ok(
                        TableModel { layouts: ls, names: names.map_values(|n: Seq<u8>| chars_of(n)) },
                    ),
                },
            }
        },
    }
}

proof fn lemma_find_name_prefix(names: Seq<Seq<u8>>, s: Seq<u8>, k: nat)
    requires
        k <= names.len(),
        find_name(names.subrange(0, k as int), s) is Some,
    ensures
        find_name(names, s) == find_name(names.subrange(0, k as int), s),
    decreases names.len(),
{
    if k < names.len() {
        assert(names.drop_last().subrange(0, k as int) =~= names.subrange(0, k as int));
        lemma_find_name_prefix(names.drop_last(), s, k);
    } else {
        assert(names.subrange(0, k as int) =~= names);
    }
}

proof fn lemma_find_name_bound(names: Seq<Seq<u8>>, s: Seq<u8>)
    ensures
        find_name(names, s) is Some ==> find_name(names, s)->0 < names.len(),
    decreases names.len(),
{
    if names.len() > 0 {
        lemma_find_name_bound(names.drop_last(), s);
    }
}

proof fn lemma_resolve_fields_prefix(names: Seq<Seq<u8>>, fs: Seq<FieldSyntax>, k: nat)
    requires
        k <= fs.len(),
        resolve_fields(names, fs.subrange(0, k as int)) is Err,
    ensures
        resolve_fields(names, fs) == resolve_fields(names, fs.subrange(0, k as int)),
    decreases fs.len(),
{
    if k < fs.len() {
        assert(fs.drop_last().subrange(0, k as int) =~= fs.subrange(0, k as int));
        lemma_resolve_fields_prefix(names, fs.drop_last(), k);
    } else {
        assert(fs.subrange(0, k as int) =~= fs);
    }
}

proof fn lemma_resolve_structs_prefix(names: Seq<Seq<u8>>, ds: Seq<StructSyntax>, k: nat)
    requires
        k <= ds.len(),
        resolve_structs(names, ds.subrange(0, k as int)) is Err,
    ensures
        resolve_structs(names, ds) == resolve_structs(names, ds.subrange(0, k as int)),
    decreases ds.len(),
{
    if k < ds.len() {
        assert(ds.drop_last().subrange(0, k as int) =~= ds.subrange(0, k as int));
        lemma_resolve_structs_prefix(names, ds.drop_last(), k);
    } else {
        assert(ds.subrange(0, k as int) =~= ds);
    }
}

proof fn lemma_first_duplicate_prefix(names: Seq<Seq<u8>>, k: nat)
    requires
        k <= names.len(),
        first_duplicate(names.subrange(0, k as int)) is Some,
    ensures
        first_duplicate(names) == first_duplicate(names.subrange(0, k as int)),
    decreases names.len(),
{
    if k < names.len() {
        assert(names.drop_last().subrange(0, k as int) =~= names.subrange(0, k as int));
        lemma_first_duplicate_prefix(names.drop_last(), k);
    } else {
        assert(names.subrange(0, k as int) =~= names);
    }
}

proof fn lemma_no_duplicate_distinct(names: Seq<Seq<u8>>)
    requires
        first_duplicate(names) is None,
    ensures
        forall|i: int, j: int| 0 <= i < j < names.len() ==> names[i] != names[j],
    decreases names.len(),
{
    if names.len() > 0 {
        lemma_no_duplicate_distinct(names.drop_last());
        assert forall|i: int, j: int| 0 <= i < j < names.len() implies names[i] != names[j] by {
            if j == names.len() - 1 && names[i] == names[j] {
                assert(names.drop_last()[i] == names.last());
            } else if j < names.len() - 1 {
                assert(names.drop_last()[i] == names[i] && names.drop_last()[j] == names[j]);
            }
        }
    }
}

proof fn lemma_chars_of_injective(x: Seq<u8>, y: Seq<u8>)
    requires
        chars_of(x) == chars_of(y),
    ensures
        x == y,
{
    assert(chars_of(x).len() == x.len() && chars_of(y).len() == y.len());
    assert forall|k: int| 0 <= k < x.len() implies x[k] == y[k] by {
        assert(chars_of(x)[k] == x[k] as char);
        assert(chars_of(y)[k] == y[k] as char);
        assert((x[k] as char) as u32 == x[k] as u32);
        assert((y[k] as char) as u32 == y[k] as u32);
    }
    assert(x =~= y);
}

/// The characters of an identifier span.
fn span_string(b: &[u8], s: Span) -> (r: String)
    requires
        span_ok(b@, s),
    ensures
        r@ == chars_of(span_of(b@, s)),
{
    let mut out = String::new();
    let mut k = s.0;
    while k < s.1
        invariant
            s.0 <= k <= s.1 <= b@.len(),
            out@ == chars_of(b@.subrange(s.0 as int, k as int)),
        decreases s.1 - k,
    {
        push_char(&mut out, b[k] as char);
        k = k + 1;
        assert(out@ =~= chars_of(b@.subrange(s.0 as int, k as int)));
    }
    out
}

/// Whether two spans hold the same bytes.
fn span_eq(b: &[u8], s: Span, t: Span) -> (r: bool)
    requires
        span_ok(b@, s),
        span_ok(b@, t),
    ensures
        r == (span_of(b@, s) == span_of(b@, t)),
{
    if s.1 - s.0 != t.1 - t.0 {
        assert(span_of(b@, s).len() != span_of(b@, t).len());
        return false;
    }
    let mut k: usize = 0;
    while k < s.1 - s.0
        invariant
            span_ok(b@, s),
            span_ok(b@, t),
            s.1 - s.0 == t.1 - t.0,
            k <= s.1 - s.0,
            forall|j: int| 0 <= j < k ==> #[trigger] span_of(b@, s)[j] == span_of(b@, t)[j],
        decreases s.1 - s.0 - k,
    {
        if b[s.0 + k] != b[t.0 + k] {
            assert(span_of(b@, s)[k as int] != span_of(b@, t)[k as int]);
            return false;
        }
        k = k + 1;
    }
    assert(span_of(b@, s) =~= span_of(b@, t));
    true
}

/// The scalar type a keyword span names, if it is one.
fn keyword_type(b: &[u8], s: Span) -> (r: Option<Type>)
    requires
        span_ok(b@, s),
    ensures
        r == scalar_keyword(span_of(b@, s)),
{
    let ghost x = span_of(b@, s);
    let n = s.1 - s.0;
    if n == 2 {
        if b[s.0] == 105 && b[s.0 + 1] == 56 {
            assert(x =~= seq![105u8, 56u8]);
            return Some(Type::I8);
        }
        assert(x[0] == b@[s.0 as int] && x[1] == b@[s.0 + 1]);
        assert(x != seq![105u8, 56u8]);
        assert(x.len() == 2);
        return None;
    }
    if n != 3 {
        assert(x.len() == n);
        return None;
    }
    let c0 = b[s.0];
    let c1 = b[s.0 + 1];
    let c2 = b[s.0 + 2];
    assert(x[0] == c0 && x[1] == c1 && x[2] == c2);
    assert(x =~= seq![c0, c1, c2]);
    if c0 == 105 && c1 == 49 && c2 == 54 {
        Some(Type::I16)
    } else if c0 == 105 && c1 == 51 && c2 == 50 {
        Some(Type::I32)
    } else if c0 == 105 && c1 == 54 && c2 == 52 {
        Some(Type::I64)
    } else if c0 == 102 && c1 == 51 && c2 == 50 {
        Some(Type::F32)
    } else if c0 == 102 && c1 == 54 && c2 == 52 {
        Some(Type::F64)
    } else {
        None
    }
}

/// Every struct reference among `fs` points below `n`.
pub open spec fn refs_below(fs: FieldsModel, n: nat) -> bool {
    forall|j: int| 0 <= j < fs.len() ==> match #[trigger] fs[j].1 {
        Type::Struct(id) => id.0 < n,
        _ => true,
    }
}

pub open spec fn span_names(b: Seq<u8>, defs: Seq<(Span, Vec<(Span, Span)>)>) -> Seq<Seq<u8>> {
    defs.map_values(|d: (Span, Vec<(Span, Span)>)| span_of(b, d.0))
}

/// Index of the first definition whose name is the span `s`.
fn find_struct(b: &[u8], defs: &Vec<(Span, Vec<(Span, Span)>)>, s: Span) -> (r: Option<usize>)
    requires
        span_ok(b@, s),
        forall|k: int| 0 <= k < defs@.len() ==> span_ok(b@, #[trigger] defs@[k].0),
    ensures
        r.is_some() == find_name(span_names(b@, defs@), span_of(b@, s)).is_some(),
        r.is_some() ==> r.unwrap() == find_name(span_names(b@, defs@), span_of(b@, s)).unwrap()
            && r.unwrap() < defs@.len(),
{
    let ghost sn = span_names(b@, defs@);
    let ghost x = span_of(b@, s);
    let mut k: usize = 0;
    assert(sn.subrange(0, 0).len() == 0);
    while k < defs.len()
        invariant
            k <= defs@.len(),
            sn == span_names(b@, defs@),
            x == span_of(b@, s),
            span_ok(b@, s),
            forall|j: int| 0 <= j < defs@.len() ==> span_ok(b@, #[trigger] defs@[j].0),
            find_name(sn.subrange(0, k as int), x) is None,
        decreases defs@.len() - k,
    {
        assert(sn.subrange(0, k + 1).drop_last() =~= sn.subrange(0, k as int));
        if span_eq(b, defs[k].0, s) {
            proof {
                lemma_find_name_prefix(sn, x, k as nat + 1);
            }
            return Some(k);
        }
        k = k + 1;
    }
    assert(sn.subrange(0, k as int) =~= sn);
    None
}

impl Expr {
    /// Parses schema text into a layout table. Struct names are registered
    /// first, in declaration order, so a field may name a struct declared
    /// later; a repeated struct name is rejected.
    pub fn parse(input: &str) -> (r: Result<Expr, ParseError>)
        requires
            input.spec_bytes().len() <= u32::MAX,
        ensures
            match parse_spec(input.spec_bytes()) {
                Ok(t) => r is Ok && r->Ok_0.model() == t && r->Ok_0.wf(),
                Err(e) => r is Err && r->Err_0.model() == e,
            },
    {
        let b = input.as_bytes();
        let defs = match syntax_of(b) {
            Ok(d) => d,
            Err(p) => return Err(ParseError::Syntax(p)),
        };
        let ghost ds = parse_syntax(b@)->Ok_0;
        let ghost names = def_names(ds);
        assert(span_names(b@, defs@) =~= names);
        let mut name_strings: Vec<String> = Vec::new();
        let mut i: usize = 0;
        assert(names.subrange(0, 0).len() == 0);
        while i < defs.len()
            invariant
                b@ == input.spec_bytes(),
                i <= defs@.len(),
                ds == parse_syntax(b@)->Ok_0,
                parse_syntax(b@) is Ok,
                defs_match(b@, defs@, ds),
                names == def_names(ds),
                first_duplicate(names.subrange(0, i as int)) is None,
                name_strings@.len() == i,
                forall|k: int| 0 <= k < i ==> #[trigger] name_strings@[k]@ == chars_of(names[k]),
            decreases defs@.len() - i,
        {
            let mut j: usize = 0;
            while j < i
                invariant
                    b@ == input.spec_bytes(),
                b@ == input.spec_bytes(),
                    j <= i < defs@.len(),
                    ds == parse_syntax(b@)->Ok_0,
                parse_syntax(b@) is Ok,
                    first_duplicate(names.subrange(0, i as int)) is None,
                    defs_match(b@, defs@, ds),
                    names == def_names(ds),
                    forall|k: int| 0 <= k < j ==> #[trigger] names[k] != names[i as int],
                decreases i - j,
            {
                if span_eq(b, defs[j].0, defs[i].0) {
                    proof {
                        let pre = names.subrange(0, i + 1);
                        assert(pre.drop_last() =~= names.subrange(0, i as int));
                        assert(pre.drop_last()[j as int] == names[i as int]);
                        assert(pre.drop_last().contains(names[i as int]));
                        assert(pre.last() == names[i as int]);
                        assert(names[i as int] == span_of(b@, defs@[i as int].0));
                        lemma_first_duplicate_prefix(names, i as nat + 1);
                    }
                    return Err(ParseError::DuplicateStruct(span_string(b, defs[i].0)));
                }
                j = j + 1;
            }
            proof {
                let pre = names.subrange(0, i + 1);
                assert(pre.drop_last() =~= names.subrange(0, i as int));
                assert(!pre.drop_last().contains(names[i as int]));
            }
            name_strings.push(span_string(b, defs[i].0));
            i = i + 1;
        }
        assert(names.subrange(0, defs@.len() as int) =~= names);
        proof {
            lemma_no_duplicate_distinct(names);
        }
        let mut layouts: Vec<Struct> = Vec::new();
        i = 0;
        assert(ds.subrange(0, 0).len() == 0);
        assert(layouts@.map_values(|s: Struct| s.model()) =~= Seq::<FieldsModel>::empty());
        while i < defs.len()
            invariant
                b@ == input.spec_bytes(),
                i <= defs@.len(),
                defs@.len() <= u32::MAX,
                ds == parse_syntax(b@)->Ok_0,
                parse_syntax(b@) is Ok,
                defs_match(b@, defs@, ds),
                names == def_names(ds),
                span_names(b@, defs@) == names,
                first_duplicate(names) is None,
                resolve_structs(names, ds.subrange(0, i as int)) == Ok::<Seq<FieldsModel>, Seq<u8>>(
                    layouts@.map_values(|s: Struct| s.model()),
                ),
                layouts@.len() == i,
                forall|k: int| 0 <= k < layouts@.len() ==> refs_below(#[trigger] layouts@[k].model(), defs@.len() as nat),
            decreases defs@.len() - i,
        {
            let fsyn = &defs[i].1;
            let ghost fs = ds[i as int].1;
            let mut fields: Vec<(String, Type)> = Vec::new();
            let mut j: usize = 0;
            assert(fs.subrange(0, 0).len() == 0);
            assert(span_ok(b@, defs@[i as int].0));
            assert(fields_match(b@, fsyn@, fs));
            assert(fields@.map_values(|p: (String, Type)| (p.0@, p.1)) =~= Seq::<(Seq<char>, Type)>::empty());
            while j < fsyn.len()
                invariant
                    b@ == input.spec_bytes(),
                b@ == input.spec_bytes(),
                    i < defs@.len() <= u32::MAX,
                    j <= fsyn@.len(),
                    fsyn == defs@[i as int].1,
                    fs == ds[i as int].1,
                    fields_match(b@, fsyn@, fs),
                    ds == parse_syntax(b@)->Ok_0,
                parse_syntax(b@) is Ok,
                    first_duplicate(names) is None,
                    resolve_structs(names, ds.subrange(0, i as int)) == Ok::<Seq<FieldsModel>, Seq<u8>>(
                        layouts@.map_values(|s: Struct| s.model()),
                    ),
                    defs_match(b@, defs@, ds),
                    names == def_names(ds),
                    span_names(b@, defs@) == names,
                    resolve_fields(names, fs.subrange(0, j as int)) == Ok::<FieldsModel, Seq<u8>>(
                        fields@.map_values(|p: (String, Type)| (p.0@, p.1)),
                    ),
                    refs_below(fields@.map_values(|p: (String, Type)| (p.0@, p.1)), defs@.len() as nat),
                decreases fsyn@.len() - j,
            {
                let (nsp, tsp) = fsyn[j];
                assert(fs.subrange(0, j + 1).drop_last() =~= fs.subrange(0, j as int));
                let ty = match keyword_type(b, tsp) {
                    Some(t) => t,
                    None => match find_struct(b, &defs, tsp) {
                        Some(k) => Type::Struct(LayoutId(k as u32)),
                        None => {
                            proof {
                                lemma_resolve_fields_prefix(names, fs, j as nat + 1);
                                let pre = ds.subrange(0, i + 1);
                                assert(pre.drop_last() =~= ds.subrange(0, i as int));
                                lemma_resolve_structs_prefix(names, ds, i as nat + 1);
                            }
                            return Err(ParseError::UnknownType(span_string(b, tsp)));
                        },
                    },
                };
                assert(resolve_type(names, fs[j as int].1) == Some(ty));
                let name = span_string(b, nsp);
                let ghost before = fields@;
                fields.push((name, ty));
                assert(fields@.map_values(|p: (String, Type)| (p.0@, p.1)) =~= before.map_values(
                    |p: (String, Type)| (p.0@, p.1),
                ).push((chars_of(fs[j as int].0), ty)));
                j = j + 1;
            }
            assert(fs.subrange(0, j as int) =~= fs);
            let ghost before = layouts@;
            let st = Struct { fields };
            layouts.push(st);
            assert(ds.subrange(0, i + 1).drop_last() =~= ds.subrange(0, i as int));
            assert(layouts@.map_values(|s: Struct| s.model()) =~= before.map_values(|s: Struct| s.model()).push(
                st.model(),
            ));
            i = i + 1;
        }
        assert(ds.subrange(0, defs@.len() as int) =~= ds);
        let e = Expr { layouts, names: name_strings };
        proof {
            let t = e.model();
            assert(t.names =~= names.map_values(|n: Seq<u8>| chars_of(n)));
            assert forall|x: int, y: int| 0 <= x < y < t.names.len() implies t.names[x] != t.names[y] by {
                if t.names[x] == t.names[y] {
                    lemma_chars_of_injective(names[x], names[y]);
                }
            }
            assert forall|x: int, y: int| 0 <= x < t.layouts.len() && 0 <= y < t.layouts[x].len() implies match #[trigger] t.layouts[x][y].1 {
                Type::Struct(id) => id.0 < t.layouts.len(),
                _ => true,
            } by {
                let fsx = t.layouts[x];
                assert(fsx == e.layouts@[x].model());
                assert(refs_below(fsx, defs@.len() as nat));
                let _ = fsx[y].1;
            }
        }
        Ok(e)
    }
}

} // verus!
