use vstd::prelude::*;

verus! {

pub open spec fn is_space(c: u8) -> bool {
    c == 32 || c == 10 || c == 9
}

pub open spec fn is_ident_start(c: u8) -> bool {
    (65 <= c <= 90) || (97 <= c <= 122) || c == 95
}

pub open spec fn is_ident_char(c: u8) -> bool {
    is_ident_start(c) || (48 <= c <= 57)
}

/// First position at or after `i` that is not a space, tab or newline.
pub open spec fn skip_ws(b: Seq<u8>, i: nat) -> nat
    decreases b.len() - i,
{
    if i < b.len() && is_space(b[i as int]) {
        skip_ws(b, i + 1)
    } else {
        i
    }
}

pub open spec fn ident_tail(b: Seq<u8>, i: nat) -> nat
    decreases b.len() - i,
{
    if i < b.len() && is_ident_char(b[i as int]) {
        ident_tail(b, i + 1)
    } else {
        i
    }
}

/// End of the identifier that starts at `i`, if one does.
pub open spec fn ident_end(b: Seq<u8>, i: nat) -> Option<nat> {
    if i < b.len() && is_ident_start(b[i as int]) {
        Some(ident_tail(b, i + 1))
    } else {
        None
    }
}

/// A field as written: its name and its type name.
pub type FieldSyntax = (Seq<u8>, Seq<u8>);

/// A struct definition as written: its name and its fields.
pub type StructSyntax = (Seq<u8>, Seq<FieldSyntax>);

pub open spec fn byte_at(b: Seq<u8>, i: nat, c: u8) -> bool {
    i < b.len() && b[i as int] == c
}

/// `name : type ,?` at `i`, with the whitespace after it: the field and the
/// next position, or the position where it fails.
pub open spec fn parse_field(b: Seq<u8>, i: nat) -> Result<(FieldSyntax, nat), nat> {
    match ident_end(b, i) {
        None => Err(i),
        Some(ne) => {
            let p = skip_ws(b, ne);
            if !byte_at(b, p, 58) {
                Err(p)
            } else {
                let q = skip_ws(b, p + 1);
                match ident_end(b, q) {
                    None => Err(q),
                    Some(te) => {
                        let r = skip_ws(b, te);
                        let r2 = if byte_at(b, r, 44) {
                            r + 1
                        } else {
                            r
                        };
                        Ok(((b.subrange(i as int, ne as int), b.subrange(q as int, te as int)), skip_ws(b, r2)))
                    },
                }
            }
        },
    }
}

/// As many fields as follow at `i`, and the position after them.
pub open spec fn parse_fields(b: Seq<u8>, i: nat) -> (Seq<FieldSyntax>, nat)
    decreases b.len() - i,
{
    match parse_field(b, i) {
        Ok((f, j)) => if i < j <= b.len() {
            let (rest, k) = parse_fields(b, j);
            (seq![f] + rest, k)
        } else {
            (Seq::empty(), i)
        },
        Err(_) => (Seq::empty(), i),
    }
}

pub open spec fn keyword_struct() -> Seq<u8> {
    seq![115u8, 116u8, 114u8, 117u8, 99u8, 116u8]
}

/// `struct name { fields }` at `i`, after optional whitespace.
pub open spec fn parse_struct(b: Seq<u8>, i: nat) -> Result<(StructSyntax, nat), nat> {
    let p = skip_ws(b, i);
    if !(p + 6 <= b.len() && b.subrange(p as int, p + 6int) == keyword_struct()) {
        Err(p)
    } else {
        let q = skip_ws(b, p + 6);
        match ident_end(b, q) {
            None => Err(q),
            Some(ne) => {
                let r = skip_ws(b, ne);
                if !byte_at(b, r, 123) {
                    Err(r)
                } else {
                    let (fs, k) = parse_fields(b, skip_ws(b, r + 1));
                    let m = skip_ws(b, k);
                    if !byte_at(b, m, 125) {
                        Err(m)
                    } else {
                        Ok(((b.subrange(q as int, ne as int), fs), m + 1))
                    }
                }
            },
        }
    }
}

/// As many definitions as follow at `i`; the position after them; and the
/// position where the next one failed.
pub open spec fn parse_structs(b: Seq<u8>, i: nat) -> (Seq<StructSyntax>, nat, nat)
    decreases b.len() - i,
{
    match parse_struct(b, i) {
        Ok((d, j)) => if i < j <= b.len() {
            let (ds, k, e) = parse_structs(b, j);
            (seq![d] + ds, k, e)
        } else {
            (Seq::empty(), i, i)
        },
        Err(e) => (Seq::empty(), i, e),
    }
}

/// The definitions of a whole schema, or the byte offset of the syntax error.
pub open spec fn parse_syntax(b: Seq<u8>) -> Result<Seq<StructSyntax>, nat> {
    let (ds, k, e) = parse_structs(b, 0);
    if skip_ws(b, k) == b.len() {
        Ok(ds)
    } else {
        Err(e)
    }
}

/// A byte span `[start, end)` of the input.
pub type Span = (usize, usize);

pub open spec fn span_of(b: Seq<u8>, s: Span) -> Seq<u8> {
    b.subrange(s.0 as int, s.1 as int)
}

pub open spec fn span_ok(b: Seq<u8>, s: Span) -> bool {
    s.0 <= s.1 <= b.len()
}

pub(crate) fn skip_spaces(b: &[u8], i: usize) -> (r: usize)
    requires
        i <= b@.len(),
    ensures
        r == skip_ws(b@, i as nat),
        i <= r <= b@.len(),
{
    let mut j = i;
    while j < b.len() && (b[j] == 32 || b[j] == 10 || b[j] == 9)
        invariant
            i <= j <= b@.len(),
            skip_ws(b@, j as nat) == skip_ws(b@, i as nat),
        decreases b@.len() - j,
    {
        j = j + 1;
    }
    j
}

fn ident_at(b: &[u8], i: usize) -> (r: Option<usize>)
    requires
        i <= b@.len(),
    ensures
        r.is_some() == ident_end(b@, i as nat).is_some(),
        r.is_some() ==> r.unwrap() == ident_end(b@, i as nat).unwrap() && i < r.unwrap() <= b@.len(),
{
    if i < b.len() && ((65 <= b[i] && b[i] <= 90) || (97 <= b[i] && b[i] <= 122) || b[i] == 95) {
        let mut j = i + 1;
        while j < b.len() && ((65 <= b[j] && b[j] <= 90) || (97 <= b[j] && b[j] <= 122) || b[j] == 95
            || (48 <= b[j] && b[j] <= 57))
            invariant
                i < j <= b@.len(),
                ident_tail(b@, j as nat) == ident_tail(b@, i as nat + 1),
            decreases b@.len() - j,
        {
            j = j + 1;
        }
        Some(j)
    } else {
        None
    }
}

fn field_at(b: &[u8], i: usize) -> (r: Result<(Span, Span, usize), usize>)
    requires
        i <= b@.len(),
    ensures
        match parse_field(b@, i as nat) {
            Ok((f, j)) => r is Ok && span_of(b@, r->Ok_0.0) == f.0 && span_of(b@, r->Ok_0.1) == f.1
                && span_ok(b@, r->Ok_0.0) && span_ok(b@, r->Ok_0.1) && r->Ok_0.2 == j && i < j <= b@.len(),
            Err(e) => r == Err::<(Span, Span, usize), usize>(e as usize),
        },
{
    let ne = match ident_at(b, i) {
        None => return Err(i),
        Some(ne) => ne,
    };
    let p = skip_spaces(b, ne);
    if !(p < b.len() && b[p] == 58) {
        return Err(p);
    }
    let q = skip_spaces(b, p + 1);
    let te = match ident_at(b, q) {
        None => return Err(q),
        Some(te) => te,
    };
    let r = skip_spaces(b, te);
    let r2 = if r < b.len() && b[r] == 44 {
        r + 1
    } else {
        r
    };
    Ok(((i, ne), (q, te), skip_spaces(b, r2)))
}

pub(crate) fn fields_at(b: &[u8], i: usize) -> (r: (Vec<(Span, Span)>, usize))
    requires
        i <= b@.len(),
    ensures
        r.0@.len() == parse_fields(b@, i as nat).0.len(),
        forall|k: int| 0 <= k < r.0@.len() ==> {
            &&& span_ok(b@, #[trigger] r.0@[k].0)
            &&& span_ok(b@, r.0@[k].1)
            &&& span_of(b@, r.0@[k].0) == parse_fields(b@, i as nat).0[k].0
            &&& span_of(b@, r.0@[k].1) == parse_fields(b@, i as nat).0[k].1
        },
        r.1 == parse_fields(b@, i as nat).1,
        i <= r.1 <= b@.len(),
{
    let mut out: Vec<(Span, Span)> = Vec::new();
    let mut pos = i;
    let ghost whole = parse_fields(b@, i as nat);
    loop
        invariant
            i <= pos <= b@.len(),
            whole == parse_fields(b@, i as nat),
            out@.len() + parse_fields(b@, pos as nat).0.len() == whole.0.len(),
            parse_fields(b@, pos as nat).1 == whole.1,
            forall|k: int| 0 <= k < out@.len() ==> {
                &&& span_ok(b@, #[trigger] out@[k].0)
                &&& span_ok(b@, out@[k].1)
                &&& span_of(b@, out@[k].0) == whole.0[k].0
                &&& span_of(b@, out@[k].1) == whole.0[k].1
            },
            forall|k: int| 0 <= k < parse_fields(b@, pos as nat).0.len() ==>
                #[trigger] parse_fields(b@, pos as nat).0[k] == whole.0[out@.len() + k],
        decreases b@.len() - pos,
    {
        match field_at(b, pos) {
            Ok((n, t, j)) => {
                let ghost rest = parse_fields(b@, j as nat);
                assert(parse_fields(b@, pos as nat).0 == seq![(span_of(b@, n), span_of(b@, t))] + rest.0);
                assert forall|k: int| 0 <= k < rest.0.len() implies #[trigger] rest.0[k] == whole.0[out@.len() + 1 + k] by {
                    assert(parse_fields(b@, pos as nat).0[k + 1] == rest.0[k]);
                }
                assert(parse_fields(b@, pos as nat).0[0] == (span_of(b@, n), span_of(b@, t)));
                out.push((n, t));
                pos = j;
            },
            Err(_) => {
                return (out, pos);
            },
        }
    }
}

/// The spans `v` hold the fields `fs` of the input `b`.
pub open spec fn fields_match(b: Seq<u8>, v: Seq<(Span, Span)>, fs: Seq<FieldSyntax>) -> bool {
    &&& v.len() == fs.len()
    &&& forall|k: int| 0 <= k < v.len() ==> {
        &&& span_ok(b, #[trigger] v[k].0)
        &&& span_ok(b, v[k].1)
        &&& span_of(b, v[k].0) == fs[k].0
        &&& span_of(b, v[k].1) == fs[k].1
    }
}

/// The spans `v` hold the definitions `ds` of the input `b`.
pub open spec fn defs_match(b: Seq<u8>, v: Seq<(Span, Vec<(Span, Span)>)>, ds: Seq<StructSyntax>) -> bool {
    &&& v.len() == ds.len()
    &&& forall|k: int| 0 <= k < v.len() ==> {
        &&& span_ok(b, #[trigger] v[k].0)
        &&& span_of(b, v[k].0) == ds[k].0
        &&& fields_match(b, v[k].1@, ds[k].1)
    }
}

fn struct_at(b: &[u8], i: usize) -> (r: Result<(Span, Vec<(Span, Span)>, usize), usize>)
    requires
        i <= b@.len(),
    ensures
        match parse_struct(b@, i as nat) {
            Ok((d, j)) => r is Ok && span_ok(b@, r->Ok_0.0) && span_of(b@, r->Ok_0.0) == d.0
                && fields_match(b@, r->Ok_0.1@, d.1) && r->Ok_0.2 == j && i < j <= b@.len(),
            Err(e) => r is Err && r->Err_0 == e,
        },
{
    let p = skip_spaces(b, i);
    if !(b.len() - p >= 6 && b[p] == 115 && b[p + 1] == 116 && b[p + 2] == 114 && b[p + 3] == 117
        && b[p + 4] == 99 && b[p + 5] == 116) {
        proof {
            if p + 6 <= b@.len() && b@.subrange(p as int, p + 6int) == keyword_struct() {
                assert(b@.subrange(p as int, p + 6int)[0] == b@[p as int]);
                assert(b@.subrange(p as int, p + 6int)[1] == b@[p + 1]);
                assert(b@.subrange(p as int, p + 6int)[2] == b@[p + 2]);
                assert(b@.subrange(p as int, p + 6int)[3] == b@[p + 3]);
                assert(b@.subrange(p as int, p + 6int)[4] == b@[p + 4]);
                assert(b@.subrange(p as int, p + 6int)[5] == b@[p + 5]);
            }
        }
        return Err(p);
    }
    assert(b@.subrange(p as int, p + 6int) =~= keyword_struct());
    let q = skip_spaces(b, p + 6);
    let ne = match ident_at(b, q) {
        None => return Err(q),
        Some(ne) => ne,
    };
    let r = skip_spaces(b, ne);
    if !(r < b.len() && b[r] == 123) {
        return Err(r);
    }
    let s0 = skip_spaces(b, r + 1);
    let (fs, k) = fields_at(b, s0);
    assert(fields_match(b@, fs@, parse_fields(b@, s0 as nat).0));
    let m = skip_spaces(b, k);
    if !(m < b.len() && b[m] == 125) {
        return Err(m);
    }
    Ok(((q, ne), fs, m + 1))
}

/// The definitions of a whole schema, as spans of `b`, or the byte offset of
/// the syntax error.
pub(crate) fn syntax_of(b: &[u8]) -> (r: Result<Vec<(Span, Vec<(Span, Span)>)>, usize>)
    ensures
        match parse_syntax(b@) {
            Ok(ds) => r is Ok && defs_match(b@, r->Ok_0@, ds) && ds.len() <= b@.len(),
            Err(e) => r is Err && r->Err_0 == e,
        },
{
    let mut out: Vec<(Span, Vec<(Span, Span)>)> = Vec::new();
    let mut pos: usize = 0;
    let ghost whole = parse_structs(b@, 0);
    loop
        invariant
            pos <= b@.len(),
            out@.len() <= pos,
            whole == parse_structs(b@, 0),
            out@.len() + parse_structs(b@, pos as nat).0.len() == whole.0.len(),
            parse_structs(b@, pos as nat).1 == whole.1,
            parse_structs(b@, pos as nat).2 == whole.2,
            defs_match(b@, out@, whole.0.subrange(0, out@.len() as int)),
            forall|k: int| 0 <= k < parse_structs(b@, pos as nat).0.len() ==>
                #[trigger] parse_structs(b@, pos as nat).0[k] == whole.0[out@.len() + k],
        decreases b@.len() - pos,
    {
        match struct_at(b, pos) {
            Ok((n, fs, j)) => {
                let ghost rest = parse_structs(b@, j as nat);
                let ghost d = parse_struct(b@, pos as nat)->Ok_0.0;
                assert(parse_structs(b@, pos as nat).0 == seq![d] + rest.0);
                assert forall|k: int| 0 <= k < rest.0.len() implies #[trigger] rest.0[k] == whole.0[out@.len() + 1 + k] by {
                    assert(parse_structs(b@, pos as nat).0[k + 1] == rest.0[k]);
                }
                assert(parse_structs(b@, pos as nat).0[0] == d);
                let ghost old_out = out@;
                out.push((n, fs));
                assert forall|k: int| 0 <= k < out@.len() implies {
                    &&& span_ok(b@, #[trigger] out@[k].0)
                    &&& span_of(b@, out@[k].0) == whole.0.subrange(0, out@.len() as int)[k].0
                    &&& fields_match(b@, out@[k].1@, whole.0.subrange(0, out@.len() as int)[k].1)
                } by {
                    if k < old_out.len() {
                        assert(out@[k] == old_out[k]);
                        assert(whole.0.subrange(0, out@.len() as int)[k] == whole.0.subrange(0, old_out.len() as int)[k]);
                    }
                }
                pos = j;
            },
            Err(e) => {
                let k = skip_spaces(b, pos);
                if k == b.len() {
                    assert(whole.0.subrange(0, out@.len() as int) =~= whole.0);
                    return Ok(out);
                }
                return Err(e);
            },
        }
    }
}

} // verus!
