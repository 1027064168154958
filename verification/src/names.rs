//! Names as byte strings: spans of the source, and lookups in tables of names.
use vstd::prelude::*;

verus! {

/// The bytes of `src` in `[start, end)`, when that span lies within `src`.
pub open spec fn span_text(src: Seq<u8>, start: int, end: int) -> Option<Seq<u8>> {
    if 0 <= start <= end <= src.len() {
        Some(src.subrange(start, end))
    } else {
        None
    }
}

/// The names of a table of parameters.
pub open spec fn param_names(params: Seq<(Seq<u8>, i32)>) -> Seq<Seq<u8>> {
    params.map_values(|p: (Seq<u8>, i32)| p.0)
}

/// Copies the bytes of `src` in `[start, end)`; `None` when the span does
/// not lie within `src`.
pub fn copy_span(src: &[u8], start: usize, end: usize) -> (r: Option<Vec<u8>>)
    ensures
        r matches Some(v) ==> span_text(src@, start as int, end as int) == Some(v@),
        r is None ==> span_text(src@, start as int, end as int) is None,
{
    if start <= end && end <= src.len() {
        let mut out: Vec<u8> = Vec::new();
        let mut i: usize = start;
        while i < end
            invariant
                start <= i <= end,
                end <= src@.len(),
                out@ =~= src@.subrange(start as int, i as int),
            decreases end - i,
        {
            out.push(src[i]);
            i = i + 1;
        }
        Some(out)
    } else {
        None
    }
}

/// Byte-wise equality.
pub fn bytes_eq(a: &[u8], b: &[u8]) -> (r: bool)
    ensures
        r == (a@ == b@),
{
    if a.len() != b.len() {
        return false;
    }
    let mut i: usize = 0;
    while i < a.len()
        invariant
            a.len() == b.len(),
            i <= a.len(),
            forall|k: int| 0 <= k < i ==> a@[k] == b@[k],
        decreases a.len() - i,
    {
        if a[i] != b[i] {
            return false;
        }
        i = i + 1;
    }
    assert(a@ =~= b@);
    true
}

/// The position of the first occurrence of `name` in `names`.
pub fn find_name(names: &Vec<Vec<u8>>, name: &[u8]) -> (r: Option<usize>)
    ensures
        match r {
            Some(k) => names.deep_view().index_of_first(name@) == Some(k as int),
            None => names.deep_view().index_of_first(name@) is None,
        },
        r matches Some(k) ==> k < names.len() && names.deep_view()[k as int] == name@,
        r is None <==> !names.deep_view().contains(name@),
{
    let ghost dv = names.deep_view();
    proof {
        dv.index_of_first_ensures(name@);
    }
    let mut i: usize = 0;
    while i < names.len()
        invariant
            dv == names.deep_view(),
            i <= names.len(),
            forall|k: int| 0 <= k < i ==> dv[k] != name@,
        decreases names.len() - i,
    {
        assert(dv[i as int] =~= names@[i as int]@);
        if bytes_eq(names[i].as_slice(), name) {
            proof {
                dv.index_of_first_ensures(name@);
                let f = dv.index_of_first(name@);
                assert(dv[i as int] == name@);
                if f != Some(i as int) {
                    assert(dv.contains(name@));
                    let j = f.unwrap();
                    if j < i {
                        assert(dv[j] != name@);
                    } else {
                        assert(dv[i as int] != name@);
                    }
                }
            }
            return Some(i);
        }
        i = i + 1;
    }
    proof {
        if dv.contains(name@) {
            let j = choose|j: int| 0 <= j < dv.len() && dv[j] == name@;
            assert(dv[j] != name@);
        }
    }
    None
}

/// The position of the first parameter called `name`.
pub fn find_param(params: &Vec<(Vec<u8>, i32)>, name: &[u8]) -> (r: Option<usize>)
    ensures
        match r {
            Some(k) => param_names(params.deep_view()).index_of_first(name@) == Some(k as int),
            None => param_names(params.deep_view()).index_of_first(name@) is None,
        },
        r matches Some(k) ==> k < params.len() && params.deep_view()[k as int].0 == name@,
        r is None <==> !param_names(params.deep_view()).contains(name@),
{
    let ghost dv = param_names(params.deep_view());
    proof {
        dv.index_of_first_ensures(name@);
    }
    let mut i: usize = 0;
    while i < params.len()
        invariant
            dv == param_names(params.deep_view()),
            dv.len() == params.len(),
            i <= params.len(),
            forall|k: int| 0 <= k < i ==> dv[k] != name@,
        decreases params.len() - i,
    {
        assert(dv[i as int] =~= params@[i as int].0@);
        if bytes_eq(params[i].0.as_slice(), name) {
            proof {
                dv.index_of_first_ensures(name@);
                let f = dv.index_of_first(name@);
                assert(dv[i as int] == name@);
                if f != Some(i as int) {
                    assert(dv.contains(name@));
                    let j = f.unwrap();
                    if j < i {
                        assert(dv[j] != name@);
                    } else {
                        assert(dv[i as int] != name@);
                    }
                }
            }
            return Some(i);
        }
        i = i + 1;
    }
    proof {
        if dv.contains(name@) {
            let j = choose|j: int| 0 <= j < dv.len() && dv[j] == name@;
            assert(dv[j] != name@);
        }
    }
    None
}

} // verus!
