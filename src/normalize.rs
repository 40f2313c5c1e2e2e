//! Decoding of typed values exported from the model checker into plain,
//! canonical values, with model constants resolved through a dictionary.
use vstd::prelude::*;
use vstd::utf8::encode_utf8;
use crate::canon::{canonical, canonical_list, lemma_canonical, lemma_canonical_congruent, same_elements, strictly_sorted};
use crate::order::{lemma_cmp_json_zero, lemma_cmp_text_zero};
use crate::error::DtmError;
use crate::json::{Json, JsonV, cmp_items, cmp_json, cmp_text, fields_view, items_view, lemma_array_view, lemma_object_view};
use crate::kind::{KindClass, classify, kind_class};

verus! {

/// The index of the first field named `k`, or -1.
pub open spec fn find_key(fs: Seq<(Seq<char>, JsonV)>, k: Seq<char>) -> int
    decreases fs.len(),
{
    if fs.len() == 0 {
        -1
    } else if fs[0].0 == k {
        0
    } else {
        let r = find_key(fs.subrange(1, fs.len() as int), k);
        if r < 0 { -1 } else { r + 1 }
    }
}

pub open spec fn is_digit(b: u8) -> bool {
    48 <= b <= 57
}

/// The number that a string of decimal digits denotes.
pub open spec fn digits_value(b: Seq<u8>) -> int
    decreases b.len(),
{
    if b.len() == 0 {
        0
    } else {
        digits_value(b.drop_last()) * 10 + (b.last() - 48)
    }
}

/// The kind tag a value holds: a number without sign, fraction or exponent
/// that fits in 32 bits.
pub open spec fn kind_code(v: JsonV) -> Option<u32> {
    match v {
        JsonV::Number(t) => {
            let b = encode_utf8(t);
            if b.len() > 0 && (forall|i: int| 0 <= i < b.len() ==> is_digit(#[trigger] b[i]))
                && digits_value(b) <= u32::MAX {
                Some(digits_value(b) as u32)
            } else {
                None
            }
        },
        _ => None,
    }
}

/// A name resolved through the constant dictionary; `o` when it is not there.
pub open spec fn resolve(s: Seq<char>, o: JsonV, d: Seq<(Seq<char>, JsonV)>) -> JsonV {
    let j = find_key(d, s);
    if 0 <= j < d.len() {
        d[j].1
    } else {
        o
    }
}

/// The normal form of a typed value `{kind, object}` under the dictionary `d`;
/// `None` where the value is malformed.
pub open spec fn normalize(v: JsonV, d: Seq<(Seq<char>, JsonV)>) -> Option<JsonV>
    decreases v,
{
    match v {
        JsonV::Object(fs) => {
            let ik = find_key(fs, "kind"@);
            let io = find_key(fs, "object"@);
            if 0 <= ik < fs.len() && 0 <= io < fs.len() {
                let o = fs[io].1;
                match kind_code(fs[ik].1) {
                    Some(k) => match kind_class(k) {
                        KindClass::Plain => Some(o),
                        KindClass::Name => match o {
                            JsonV::Str(s) => Some(resolve(s, o, d)),
                            _ => None,
                        },
                        KindClass::Tuple => tuple_of(o, d),
                        KindClass::Unordered => set_of(o, d),
                        KindClass::Record => record_of(o, d),
                        KindClass::Function => function_of(o, d),
                        KindClass::Unknown => None,
                    },
                    None => None,
                }
            } else {
                None
            }
        },
        _ => None,
    }
}


/// A tuple: an array whose elements are normalised in place.
pub open spec fn tuple_of(o: JsonV, d: Seq<(Seq<char>, JsonV)>) -> Option<JsonV>
    decreases o,
{
    match o {
        JsonV::Array(xs) => match normalize_items(xs, d) {
            Some(ys) => Some(JsonV::Array(ys)),
            None => None,
        },
        _ => None,
    }
}

/// A set: its normalised elements in canonical order, without repeats.
pub open spec fn set_of(o: JsonV, d: Seq<(Seq<char>, JsonV)>) -> Option<JsonV>
    decreases o,
{
    match o {
        JsonV::Array(xs) => match normalize_items(xs, d) {
            Some(ys) => Some(JsonV::Array(canonical(ys))),
            None => None,
        },
        _ => None,
    }
}

/// A field as the pair `[name, value]`.
pub open spec fn field_pair(f: (Seq<char>, JsonV)) -> JsonV {
    JsonV::Array(seq![JsonV::Str(f.0), f.1])
}

/// The field that a pair `[name, value]` stands for.
pub open spec fn pair_field(p: JsonV) -> (Seq<char>, JsonV) {
    (p->Array_0[0]->Str_0, p->Array_0[1])
}

/// No two fields share a name.
pub open spec fn distinct_names(gs: Seq<(Seq<char>, JsonV)>) -> bool {
    forall|i: int, j: int| 0 <= i < j < gs.len() ==> gs[i].0 != gs[j].0
}

/// The fields ordered by name (then by value, which never decides when the
/// names are distinct).
pub open spec fn sorted_fields(hs: Seq<(Seq<char>, JsonV)>) -> Seq<(Seq<char>, JsonV)> {
    let c = canonical(Seq::new(hs.len(), |i: int| field_pair(hs[i])));
    Seq::new(c.len(), |i: int| pair_field(c[i]))
}

/// A record: values normalised, fields ordered by name; repeated names are
/// malformed.
pub open spec fn record_of(o: JsonV, d: Seq<(Seq<char>, JsonV)>) -> Option<JsonV>
    decreases o,
{
    match o {
        JsonV::Object(gs) => if distinct_names(gs) {
            match normalize_fields(gs, d) {
                Some(hs) => Some(JsonV::Object(sorted_fields(hs))),
                None => None,
            }
        } else {
            None
        },
        _ => None,
    }
}

/// A function: its `[domain, value]` pairs in canonical order.
pub open spec fn function_of(o: JsonV, d: Seq<(Seq<char>, JsonV)>) -> Option<JsonV>
    decreases o,
{
    match o {
        JsonV::Object(gs) => match normalize_entries(gs, d) {
            Some(ps) => Some(JsonV::Array(canonical(ps))),
            None => None,
        },
        _ => None,
    }
}

/// `r` is the outcome that the model `s` describes: the value when there is
/// one, a malformed-value error when there is none.
pub open spec fn outcome(r: Result<Json, DtmError>, s: Option<JsonV>) -> bool {
    match r {
        Ok(w) => s == Some(w@),
        Err(e) => s is None && e == DtmError::MalformedValue,
    }
}

/// Each element normalised, in order; `None` if any of them is malformed.
pub open spec fn normalize_items(xs: Seq<JsonV>, d: Seq<(Seq<char>, JsonV)>) -> Option<Seq<JsonV>>
    decreases xs,
{
    if xs.len() == 0 {
        Some(Seq::empty())
    } else {
        match (normalize_items(xs.subrange(0, xs.len() - 1), d), normalize(xs[xs.len() - 1], d)) {
            (Some(ys), Some(y)) => Some(ys.push(y)),
            _ => None,
        }
    }
}

/// Each field's value normalised, names and order kept.
pub open spec fn normalize_fields(gs: Seq<(Seq<char>, JsonV)>, d: Seq<(Seq<char>, JsonV)>) -> Option<
    Seq<(Seq<char>, JsonV)>,
>
    decreases gs,
{
    if gs.len() == 0 {
        Some(Seq::empty())
    } else {
        match (normalize_fields(gs.subrange(0, gs.len() - 1), d), normalize(gs[gs.len() - 1].1, d)) {
            (Some(hs), Some(h)) => Some(hs.push((gs[gs.len() - 1].0, h))),
            _ => None,
        }
    }
}

/// One entry `{domain, value}` of a function, as the pair `[domain, value]`.
pub open spec fn normalize_entry(g: JsonV, d: Seq<(Seq<char>, JsonV)>) -> Option<JsonV>
    decreases g,
{
    match g {
        JsonV::Object(es) => {
            let id = find_key(es, "domain"@);
            let iv = find_key(es, "value"@);
            if 0 <= id < es.len() && 0 <= iv < es.len() {
                match (normalize(es[id].1, d), normalize(es[iv].1, d)) {
                    (Some(a), Some(b)) => Some(JsonV::Array(seq![a, b])),
                    _ => None,
                }
            } else {
                None
            }
        },
        _ => None,
    }
}

/// Each entry of a function as a `[domain, value]` pair.
pub open spec fn normalize_entries(gs: Seq<(Seq<char>, JsonV)>, d: Seq<(Seq<char>, JsonV)>) -> Option<
    Seq<JsonV>,
>
    decreases gs,
{
    if gs.len() == 0 {
        Some(Seq::empty())
    } else {
        match (normalize_entries(gs.subrange(0, gs.len() - 1), d), normalize_entry(gs[gs.len() - 1].1, d)) {
            (Some(ps), Some(p)) => Some(ps.push(p)),
            _ => None,
        }
    }
}

proof fn lemma_items_none(xs: Seq<JsonV>, d: Seq<(Seq<char>, JsonV)>, k: int)
    requires
        0 <= k <= xs.len(),
        normalize_items(xs.subrange(0, k), d) is None,
    ensures
        normalize_items(xs, d) is None,
    decreases xs.len() - k,
{
    if k < xs.len() {
        let p = xs.subrange(0, k + 1);
        assert(p.subrange(0, k) =~= xs.subrange(0, k));
        lemma_items_none(xs, d, k + 1);
    } else {
        assert(xs.subrange(0, k) =~= xs);
    }
}

proof fn lemma_fields_none(gs: Seq<(Seq<char>, JsonV)>, d: Seq<(Seq<char>, JsonV)>, k: int)
    requires
        0 <= k <= gs.len(),
        normalize_fields(gs.subrange(0, k), d) is None,
    ensures
        normalize_fields(gs, d) is None,
    decreases gs.len() - k,
{
    if k < gs.len() {
        let p = gs.subrange(0, k + 1);
        assert(p.subrange(0, k) =~= gs.subrange(0, k));
        lemma_fields_none(gs, d, k + 1);
    } else {
        assert(gs.subrange(0, k) =~= gs);
    }
}

proof fn lemma_entries_none(gs: Seq<(Seq<char>, JsonV)>, d: Seq<(Seq<char>, JsonV)>, k: int)
    requires
        0 <= k <= gs.len(),
        normalize_entries(gs.subrange(0, k), d) is None,
    ensures
        normalize_entries(gs, d) is None,
    decreases gs.len() - k,
{
    if k < gs.len() {
        let p = gs.subrange(0, k + 1);
        assert(p.subrange(0, k) =~= gs.subrange(0, k));
        lemma_entries_none(gs, d, k + 1);
    } else {
        assert(gs.subrange(0, k) =~= gs);
    }
}

proof fn lemma_find_none(fs: Seq<(Seq<char>, JsonV)>, k: Seq<char>)
    requires
        forall|j: int| 0 <= j < fs.len() ==> (#[trigger] fs[j]).0 != k,
    ensures
        find_key(fs, k) == -1,
    decreases fs.len(),
{
    if fs.len() > 0 {
        let t = fs.subrange(1, fs.len() as int);
        assert forall|j: int| 0 <= j < t.len() implies (#[trigger] t[j]).0 != k by {
            assert(t[j] == fs[j + 1]);
        }
        lemma_find_none(t, k);
    }
}

proof fn lemma_find_first(fs: Seq<(Seq<char>, JsonV)>, k: Seq<char>, i: int)
    requires
        0 <= i < fs.len(),
        fs[i].0 == k,
        forall|j: int| 0 <= j < i ==> (#[trigger] fs[j]).0 != k,
    ensures
        find_key(fs, k) == i,
    decreases i,
{
    if i > 0 {
        let t = fs.subrange(1, fs.len() as int);
        assert forall|j: int| 0 <= j < i - 1 implies (#[trigger] t[j]).0 != k by {
            assert(t[j] == fs[j + 1]);
        }
        assert(t[i - 1] == fs[i]);
        lemma_find_first(t, k, i - 1);
    }
}

/// The index of the first field named `k`.
pub fn find_field(fs: &Vec<(String, Json)>, k: &String) -> (r: Option<usize>)
    ensures
        match r {
            Some(i) => i < fs.len() && find_key(fields_view(fs@), k@) == i,
            None => find_key(fields_view(fs@), k@) == -1,
        },
{
    let ghost v = fields_view(fs@);
    let mut i: usize = 0;
    while i < fs.len()
        invariant
            i <= fs.len(),
            v == fields_view(fs@),
            forall|j: int| 0 <= j < i ==> (#[trigger] v[j]).0 != k@,
        decreases fs.len() - i,
    {
        if fs[i].0 == *k {
            proof {
                lemma_find_first(v, k@, i as int);
            }
            return Some(i);
        }
        i = i + 1;
    }
    proof {
        lemma_find_none(v, k@);
    }
    None
}

proof fn lemma_digits_grow(b: Seq<u8>, j: int)
    requires
        0 <= j <= b.len(),
        forall|i: int| 0 <= i < b.len() ==> is_digit(#[trigger] b[i]),
    ensures
        digits_value(b.subrange(0, j)) <= digits_value(b),
    decreases b.len(),
{
    if j == b.len() {
        assert(b.subrange(0, j) =~= b);
    } else {
        let c = b.drop_last();
        assert(c.subrange(0, j) =~= b.subrange(0, j));
        lemma_digits_grow(c, j);
        lemma_digits_nonneg(c);
    }
}

proof fn lemma_digits_nonneg(b: Seq<u8>)
    requires
        forall|i: int| 0 <= i < b.len() ==> is_digit(#[trigger] b[i]),
    ensures
        0 <= digits_value(b),
    decreases b.len(),
{
    if b.len() > 0 {
        lemma_digits_nonneg(b.drop_last());
    }
}

/// Reads a kind tag.
pub fn parse_kind(v: &Json) -> (r: Option<u32>)
    ensures
        r == kind_code(v@),
{
    match v {
        Json::Number(t) => {
            let b = t.as_str().as_bytes();
            let ghost bs = b@;
            if b.len() == 0 {
                return None;
            }
            proof {
                assert(v@ == JsonV::Number(t@));
            }
            let mut acc: u64 = 0;
            let mut i: usize = 0;
            while i < b.len()
                invariant
                    i <= bs.len(),
                    b@ == bs,
                    bs == encode_utf8(t@),
                    forall|j: int| 0 <= j < i ==> is_digit(#[trigger] bs[j]),
                    acc as int == digits_value(bs.subrange(0, i as int)),
                    acc <= u32::MAX,
                    v@ == JsonV::Number(t@),
                decreases bs.len() - i,
            {
                let c = b[i];
                if c < 48 || c > 57 {
                    proof {
                        assert(!is_digit(bs[i as int]));
                    }
                    return None;
                }
                let dg: u64 = (c - 48) as u64;
                proof {
                    assert(bs.subrange(0, i as int + 1).drop_last() =~= bs.subrange(0, i as int));
                    assert(bs.subrange(0, i as int + 1).last() == c);
                }
                if acc > (0xffff_ffffu64 - dg) / 10 {
                    proof {
                        assert(acc * 10 + dg > u32::MAX) by (nonlinear_arith)
                            requires
                                acc > (0xffff_ffffu64 - dg) / 10,
                                dg <= 9,
                        ;
                        if forall|j: int| 0 <= j < bs.len() ==> is_digit(#[trigger] bs[j]) {
                            lemma_digits_grow(bs, i as int + 1);
                        }
                    }
                    return None;
                }
                proof {
                    assert(acc * 10 + dg <= u32::MAX) by (nonlinear_arith)
                        requires
                            acc <= (0xffff_ffffu64 - dg) / 10,
                            dg <= 9,
                    ;
                }
                acc = acc * 10 + dg;
                i = i + 1;
            }
            proof {
                assert(bs.subrange(0, bs.len() as int) =~= bs);
            }
            Some(acc as u32)
        },
        _ => None,
    }
}

/// Normalises a typed value `{kind, object}` under the constant dictionary
/// `dict`, whose entries map a constant's name to its value.
pub fn get_typed_value(value: &Json, dict: &Vec<(String, Json)>) -> (r: Result<Json, DtmError>)
    ensures
        outcome(r, normalize(value@, fields_view(dict@))),
    decreases value,
{
    let fs = match value {
        Json::Object(fs) => fs,
        _ => {
            return Err(DtmError::MalformedValue);
        },
    };
    proof {
        lemma_object_view(*fs);
    }
    let kind_key = "kind".to_owned();
    let object_key = "object".to_owned();
    let ik = match find_field(fs, &kind_key) {
        Some(i) => i,
        None => {
            return Err(DtmError::MalformedValue);
        },
    };
    let io = match find_field(fs, &object_key) {
        Some(i) => i,
        None => {
            return Err(DtmError::MalformedValue);
        },
    };
    let k = match parse_kind(&fs[ik].1) {
        Some(k) => k,
        None => {
            return Err(DtmError::MalformedValue);
        },
    };
    let o = &fs[io].1;
    proof {
        assert(decreases_to!(*value => (*value)->Object_0));
        assert(decreases_to!(*fs => fs[io as int]));
        assert(decreases_to!(fs[io as int] => fs[io as int].1));
    }
    match classify(k) {
        KindClass::Plain => Ok(o.deep_clone()),
        KindClass::Name => match o {
            Json::Str(name) => match find_field(dict, name) {
                Some(j) => Ok(dict[j].1.deep_clone()),
                None => Ok(o.deep_clone()),
            },
            _ => Err(DtmError::MalformedValue),
        },
        KindClass::Tuple => get_tuple_value(o, dict),
        KindClass::Unordered => get_set_value(o, dict),
        KindClass::Record => get_record_value(o, dict),
        KindClass::Function => get_fcn_value(o, dict),
        KindClass::Unknown => Err(DtmError::MalformedValue),
    }
}

/// Normalises each element of an array.
fn get_array(xs: &Vec<Json>, dict: &Vec<(String, Json)>) -> (r: Result<Vec<Json>, DtmError>)
    ensures
        match r {
            Ok(ys) => normalize_items(items_view(xs@), fields_view(dict@)) == Some(items_view(ys@)),
            Err(e) => normalize_items(items_view(xs@), fields_view(dict@)) is None && e
                == DtmError::MalformedValue,
        },
    decreases xs,
{
    let ghost d = fields_view(dict@);
    let ghost sx = items_view(xs@);
    let mut out: Vec<Json> = Vec::new();
    let mut i: usize = 0;
    proof {
        assert(items_view(out@) =~= Seq::<JsonV>::empty());
    }
    while i < xs.len()
        invariant
            i <= xs.len(),
            d == fields_view(dict@),
            sx == items_view(xs@),
            normalize_items(sx.subrange(0, i as int), d) == Some(items_view(out@)),
        decreases xs.len() - i,
    {
        proof {
            assert(decreases_to!(*xs => xs[i as int]));
            let p = sx.subrange(0, i as int + 1);
            assert(p.subrange(0, i as int) =~= sx.subrange(0, i as int));
            assert(p[i as int] == sx[i as int]);
        }
        match get_typed_value(&xs[i], dict) {
            Ok(w) => {
                let ghost before = out@;
                out.push(w);
                proof {
                    assert(items_view(out@) =~= items_view(before).push(w@));
                }
            },
            Err(e) => {
                proof {
                    lemma_items_none(sx, d, i as int + 1);
                }
                return Err(e);
            },
        }
        i = i + 1;
    }
    proof {
        assert(sx.subrange(0, sx.len() as int) =~= sx);
    }
    Ok(out)
}

pub fn get_tuple_value(o: &Json, dict: &Vec<(String, Json)>) -> (r: Result<Json, DtmError>)
    ensures
        outcome(r, tuple_of(o@, fields_view(dict@))),
    decreases o,
{
    match o {
        Json::Array(xs) => {
            proof {
                lemma_array_view(*xs);
                assert(decreases_to!(*o => (*o)->Array_0));
            }
            let ys = get_array(xs, dict)?;
            proof {
                lemma_array_view(ys);
            }
            Ok(Json::Array(ys))
        },
        _ => Err(DtmError::MalformedValue),
    }
}

pub fn get_set_value(o: &Json, dict: &Vec<(String, Json)>) -> (r: Result<Json, DtmError>)
    ensures
        outcome(r, set_of(o@, fields_view(dict@))),
    decreases o,
{
    match o {
        Json::Array(xs) => {
            proof {
                lemma_array_view(*xs);
                assert(decreases_to!(*o => (*o)->Array_0));
            }
            let ys = get_array(xs, dict)?;
            let zs = canonical_list(&ys);
            proof {
                lemma_array_view(zs);
            }
            Ok(Json::Array(zs))
        },
        _ => Err(DtmError::MalformedValue),
    }
}

/// Whether no two fields share a name.
pub fn names_distinct(gs: &Vec<(String, Json)>) -> (r: bool)
    ensures
        r == distinct_names(fields_view(gs@)),
{
    let ghost v = fields_view(gs@);
    let mut i: usize = 0;
    while i < gs.len()
        invariant
            i <= gs.len(),
            v == fields_view(gs@),
            forall|p: int, q: int| 0 <= p < q < gs.len() && p < i ==> v[p].0 != v[q].0,
        decreases gs.len() - i,
    {
        let mut j: usize = i + 1;
        while j < gs.len()
            invariant
                i < j <= gs.len(),
                v == fields_view(gs@),
                forall|p: int, q: int| 0 <= p < q < gs.len() && p < i ==> v[p].0 != v[q].0,
                forall|q: int| i < q < j ==> v[i as int].0 != v[q].0,
            decreases gs.len() - j,
        {
            if gs[i].0 == gs[j].0 {
                proof {
                    assert(v[i as int].0 == v[j as int].0);
                }
                return false;
            }
            j = j + 1;
        }
        i = i + 1;
    }
    true
}

/// Orders fields by name.
fn sort_fields(hs: &Vec<(String, Json)>) -> (r: Vec<(String, Json)>)
    ensures
        fields_view(r@) == sorted_fields(fields_view(hs@)),
{
    let ghost h = fields_view(hs@);
    let ghost pv = Seq::new(h.len(), |i: int| field_pair(h[i]));
    let mut pairs: Vec<Json> = Vec::new();
    let mut i: usize = 0;
    while i < hs.len()
        invariant
            i <= hs.len(),
            h == fields_view(hs@),
            pv == Seq::new(h.len(), |i: int| field_pair(h[i])),
            items_view(pairs@) == pv.subrange(0, i as int),
        decreases hs.len() - i,
    {
        let mut p: Vec<Json> = Vec::new();
        p.push(Json::Str(hs[i].0.clone()));
        p.push(hs[i].1.deep_clone());
        proof {
            lemma_array_view(p);
            assert(items_view(p@) =~= seq![JsonV::Str(h[i as int].0), h[i as int].1]);
        }
        let ghost before = pairs@;
        let ghost pj = Json::Array(p);
        pairs.push(Json::Array(p));
        proof {
            assert(pj@ == field_pair(h[i as int]));
            assert(items_view(pairs@) =~= items_view(before).push(pj@));
            assert(items_view(pairs@) =~= pv.subrange(0, i as int + 1));
        }
        i = i + 1;
    }
    proof {
        assert(pv.subrange(0, hs.len() as int) =~= pv);
    }
    let zs = canonical_list(&pairs);
    let ghost c = canonical(pv);
    proof {
        lemma_canonical(pv);
    }
    let mut out: Vec<(String, Json)> = Vec::new();
    let mut k: usize = 0;
    while k < zs.len()
        invariant
            k <= zs.len(),
            c == items_view(zs@),
            same_elements(c, pv),
            pv == Seq::new(h.len(), |i: int| field_pair(h[i])),
            fields_view(out@) == Seq::new(k as nat, |i: int| pair_field(c[i])),
        decreases zs.len() - k,
    {
        proof {
            assert(c.contains(c[k as int]));
            let a = choose|a: int| 0 <= a < pv.len() && pv[a] == c[k as int];
            assert(zs@[k as int]@ == field_pair(h[a]));
        }
        let ghost before = out@;
        match &zs[k] {
            Json::Array(p) => {
                proof {
                    lemma_array_view(*p);
                }
                if p.len() != 2 {
                    proof {
                        assert(items_view(p@).len() == 2);
                    }
                    return out;
                }
                match &p[0] {
                    Json::Str(name) => {
                        proof {
                            assert(items_view(p@)[0] == p@[0]@);
                            assert(items_view(p@)[1] == p@[1]@);
                        }
                        let nm = name.clone();
                        let vl = p[1].deep_clone();
                        proof {
                            assert(pair_field(c[k as int]) == (nm@, vl@));
                        }
                        out.push((nm, vl));
                        proof {
                            assert(fields_view(out@) =~= fields_view(before).push((nm@, vl@)));
                        }
                    },
                    _ => {
                        proof {
                            assert(items_view(p@)[0] == p@[0]@);
                        }
                        return out;
                    },
                }
            },
            _ => {
                return out;
            },
        }
        proof {
            assert(fields_view(out@) =~= Seq::new(k as nat + 1, |i: int| pair_field(c[i])));
        }
        k = k + 1;
    }
    out
}

/// Normalises the value of each field, names and order kept.
fn get_fields(gs: &Vec<(String, Json)>, dict: &Vec<(String, Json)>) -> (r: Result<
    Vec<(String, Json)>,
    DtmError,
>)
    ensures
        match r {
            Ok(hs) => normalize_fields(fields_view(gs@), fields_view(dict@)) == Some(fields_view(hs@)),
            Err(e) => normalize_fields(fields_view(gs@), fields_view(dict@)) is None && e
                == DtmError::MalformedValue,
        },
    decreases gs,
{
    let ghost d = fields_view(dict@);
    let ghost sg = fields_view(gs@);
    let mut out: Vec<(String, Json)> = Vec::new();
    let mut i: usize = 0;
    proof {
        assert(fields_view(out@) =~= Seq::<(Seq<char>, JsonV)>::empty());
    }
    while i < gs.len()
        invariant
            i <= gs.len(),
            d == fields_view(dict@),
            sg == fields_view(gs@),
            normalize_fields(sg.subrange(0, i as int), d) == Some(fields_view(out@)),
        decreases gs.len() - i,
    {
        proof {
            assert(decreases_to!(*gs => gs[i as int]));
            assert(decreases_to!(gs[i as int] => gs[i as int].1));
            let p = sg.subrange(0, i as int + 1);
            assert(p.subrange(0, i as int) =~= sg.subrange(0, i as int));
            assert(p[i as int] == sg[i as int]);
        }
        match get_typed_value(&gs[i].1, dict) {
            Ok(w) => {
                let ghost before = out@;
                out.push((gs[i].0.clone(), w));
                proof {
                    assert(fields_view(out@) =~= fields_view(before).push((sg[i as int].0, w@)));
                }
            },
            Err(e) => {
                proof {
                    lemma_fields_none(sg, d, i as int + 1);
                }
                return Err(e);
            },
        }
        i = i + 1;
    }
    proof {
        assert(sg.subrange(0, sg.len() as int) =~= sg);
    }
    Ok(out)
}

/// Normalises a record: each value normalised, fields ordered by name.
pub fn get_record_value(o: &Json, dict: &Vec<(String, Json)>) -> (r: Result<Json, DtmError>)
    ensures
        outcome(r, record_of(o@, fields_view(dict@))),
        r matches Ok(Json::Object(fs)) ==> forall|i: int, j: int|
            0 <= i < j < fs.len() ==> cmp_text(fs@[i].0@, fs@[j].0@) < 0,
    decreases o,
{
    match o {
        Json::Object(gs) => {
            proof {
                lemma_object_view(*gs);
                assert(decreases_to!(*o => (*o)->Object_0));
            }
            if !names_distinct(gs) {
                return Err(DtmError::MalformedValue);
            }
            let hs = get_fields(gs, dict)?;
            let fs = sort_fields(&hs);
            proof {
                lemma_object_view(fs);
                lemma_record_sorted(o@, fields_view(dict@));
                assert(record_of(o@, fields_view(dict@)) == Some(JsonV::Object(fields_view(fs@))));
                assert forall|i: int, j: int| 0 <= i < j < fs.len() implies cmp_text(
                    fs@[i].0@,
                    fs@[j].0@,
                ) < 0 by {
                    let fv = fields_view(fs@);
                    assert(fv[i].0 == fs@[i].0@);
                    assert(fv[j].0 == fs@[j].0@);
                    assert(names_increasing(fv));
                    assert(cmp_text(fv[i].0, fv[j].0) < 0);
                }
            }
            Ok(Json::Object(fs))
        },
        _ => Err(DtmError::MalformedValue),
    }
}

/// One entry `{domain, value}` of a function, as the pair `[domain, value]`.
fn get_fcn_entry(g: &Json, dict: &Vec<(String, Json)>) -> (r: Result<Json, DtmError>)
    ensures
        outcome(r, normalize_entry(g@, fields_view(dict@))),
    decreases g,
{
    let es = match g {
        Json::Object(es) => es,
        _ => {
            return Err(DtmError::MalformedValue);
        },
    };
    proof {
        lemma_object_view(*es);
    }
    let domain_key = "domain".to_owned();
    let value_key = "value".to_owned();
    let id = match find_field(es, &domain_key) {
        Some(i) => i,
        None => {
            return Err(DtmError::MalformedValue);
        },
    };
    let iv = match find_field(es, &value_key) {
        Some(i) => i,
        None => {
            return Err(DtmError::MalformedValue);
        },
    };
    proof {
        assert(decreases_to!(*g => (*g)->Object_0));
        assert(decreases_to!(*es => es[id as int]));
        assert(decreases_to!(es[id as int] => es[id as int].1));
        assert(decreases_to!(*es => es[iv as int]));
        assert(decreases_to!(es[iv as int] => es[iv as int].1));
    }
    let a = get_typed_value(&es[id].1, dict)?;
    let b = get_typed_value(&es[iv].1, dict)?;
    let mut pair: Vec<Json> = Vec::new();
    pair.push(a);
    pair.push(b);
    proof {
        lemma_array_view(pair);
        assert(items_view(pair@) =~= seq![a@, b@]);
    }
    Ok(Json::Array(pair))
}

pub fn get_fcn_value(o: &Json, dict: &Vec<(String, Json)>) -> (r: Result<Json, DtmError>)
    ensures
        outcome(r, function_of(o@, fields_view(dict@))),
    decreases o,
{
    match o {
        Json::Object(gs) => {
            proof {
                lemma_object_view(*gs);
            }
            let ghost d = fields_view(dict@);
            let ghost sg = fields_view(gs@);
            let mut out: Vec<Json> = Vec::new();
            let mut i: usize = 0;
            proof {
                assert(items_view(out@) =~= Seq::<JsonV>::empty());
            }
            while i < gs.len()
                invariant
                    i <= gs.len(),
                    *o == Json::Object(*gs),
                    o@ == JsonV::Object(sg),
                    d == fields_view(dict@),
                    sg == fields_view(gs@),
                    normalize_entries(sg.subrange(0, i as int), d) == Some(items_view(out@)),
                decreases gs.len() - i,
            {
                proof {
                    assert(decreases_to!(*o => (*o)->Object_0));
                    assert(decreases_to!(*gs => gs[i as int]));
                    assert(decreases_to!(gs[i as int] => gs[i as int].1));
                    let p = sg.subrange(0, i as int + 1);
                    assert(p.subrange(0, i as int) =~= sg.subrange(0, i as int));
                    assert(p[i as int] == sg[i as int]);
                }
                match get_fcn_entry(&gs[i].1, dict) {
                    Ok(w) => {
                        let ghost before = out@;
                        out.push(w);
                        proof {
                            assert(items_view(out@) =~= items_view(before).push(w@));
                        }
                    },
                    Err(e) => {
                        proof {
                            lemma_entries_none(sg, d, i as int + 1);
                        }
                        return Err(e);
                    },
                }
                i = i + 1;
            }
            proof {
                assert(sg.subrange(0, sg.len() as int) =~= sg);
            }
            let zs = canonical_list(&out);
            proof {
                lemma_array_view(zs);
            }
            Ok(Json::Array(zs))
        },
        _ => Err(DtmError::MalformedValue),
    }
}

/// Two sets whose elements normalise to the same elements, in any order and
/// with any repeats, normalise to one value.
pub proof fn lemma_set_congruent(o1: JsonV, o2: JsonV, d: Seq<(Seq<char>, JsonV)>)
    requires
        tuple_of(o1, d) matches Some(JsonV::Array(ys1)) && tuple_of(o2, d) matches Some(
            JsonV::Array(ys2),
        ) && same_elements(ys1, ys2),
    ensures
        set_of(o1, d) is Some,
        set_of(o1, d) == set_of(o2, d),
{
    let ys1 = normalize_items(o1->Array_0, d).unwrap();
    let ys2 = normalize_items(o2->Array_0, d).unwrap();
    lemma_canonical_congruent(ys1, ys2);
}


/// Normalising fields succeeds exactly when each value normalises, and then
/// gives each field its normalised value.
pub proof fn lemma_fields_elementwise(gs: Seq<(Seq<char>, JsonV)>, d: Seq<(Seq<char>, JsonV)>)
    ensures
        normalize_fields(gs, d) is Some <==> forall|i: int|
            0 <= i < gs.len() ==> #[trigger] normalize(gs[i].1, d) is Some,
        normalize_fields(gs, d) matches Some(hs) ==> hs.len() == gs.len() && forall|i: int|
            0 <= i < gs.len() ==> #[trigger] hs[i] == (gs[i].0, normalize(gs[i].1, d).unwrap()),
    decreases gs.len(),
{
    if gs.len() > 0 {
        let p = gs.subrange(0, gs.len() - 1);
        lemma_fields_elementwise(p, d);
        assert forall|i: int| 0 <= i < p.len() implies p[i] == gs[i] by {}
        if !(normalize_fields(gs, d) is Some) {
            if normalize_fields(p, d) is None {
                let k = choose|k: int| 0 <= k < p.len() && !(normalize(p[k].1, d) is Some);
                assert(!(normalize(gs[k].1, d) is Some));
            }
        }
    }
}

/// Each field's name comes strictly before the next one's.
pub open spec fn names_increasing(fs: Seq<(Seq<char>, JsonV)>) -> bool {
    forall|i: int, j: int| 0 <= i < j < fs.len() ==> cmp_text(fs[i].0, fs[j].0) < 0
}

/// The fields of a normalised record come in strictly increasing order of name.
pub proof fn lemma_record_sorted(o: JsonV, d: Seq<(Seq<char>, JsonV)>)
    ensures
        record_of(o, d) is Some ==> names_increasing(record_of(o, d).unwrap()->Object_0),
{
    if let JsonV::Object(gs) = o {
        if distinct_names(gs) {
            lemma_fields_elementwise(gs, d);
            if let Some(hs) = normalize_fields(gs, d) {
                let pv = Seq::new(hs.len(), |i: int| field_pair(hs[i]));
                let c = canonical(pv);
                lemma_canonical(pv);
                let fs = sorted_fields(hs);
                assert forall|i: int, j: int| 0 <= i < j < fs.len() implies cmp_text(fs[i].0, fs[j].0)
                    < 0 by {
                    assert(c.contains(c[i]));
                    assert(c.contains(c[j]));
                    let a = choose|a: int| 0 <= a < pv.len() && pv[a] == c[i];
                    let b = choose|b: int| 0 <= b < pv.len() && pv[b] == c[j];
                    assert(hs[a].0 == gs[a].0);
                    assert(hs[b].0 == gs[b].0);
                    let xs = seq![JsonV::Str(hs[a].0), hs[a].1];
                    let ys = seq![JsonV::Str(hs[b].0), hs[b].1];
                    assert(c[i] == JsonV::Array(xs));
                    assert(c[j] == JsonV::Array(ys));
                    assert(fs[i] == (hs[a].0, hs[a].1));
                    assert(fs[j] == (hs[b].0, hs[b].1));
                    assert(cmp_json(c[i], c[j]) < 0);
                    assert(cmp_json(c[i], c[j]) == cmp_items(xs, ys));
                    assert(cmp_json(xs[0], ys[0]) == cmp_text(hs[a].0, hs[b].0));
                    lemma_cmp_text_zero(hs[a].0, hs[b].0);
                    lemma_cmp_json_zero(c[i], c[j]);
                    if a != b {
                        if a < b {
                            assert(gs[a].0 != gs[b].0);
                        } else {
                            assert(gs[b].0 != gs[a].0);
                        }
                    }
                }
            }
        }
    }
}

/// Normalising function entries succeeds exactly when each entry
/// normalises, and then gives each entry's pair.
pub proof fn lemma_entries_elementwise(gs: Seq<(Seq<char>, JsonV)>, d: Seq<(Seq<char>, JsonV)>)
    ensures
        normalize_entries(gs, d) is Some <==> forall|i: int|
            0 <= i < gs.len() ==> #[trigger] normalize_entry(gs[i].1, d) is Some,
        normalize_entries(gs, d) matches Some(ps) ==> ps.len() == gs.len() && forall|i: int|
            0 <= i < gs.len() ==> #[trigger] ps[i] == normalize_entry(gs[i].1, d).unwrap(),
    decreases gs.len(),
{
    if gs.len() > 0 {
        let p = gs.subrange(0, gs.len() - 1);
        lemma_entries_elementwise(p, d);
        assert forall|i: int| 0 <= i < p.len() implies p[i] == gs[i] by {}
        if !(normalize_entries(gs, d) is Some) {
            if normalize_entries(p, d) is None {
                let k = choose|k: int| 0 <= k < p.len() && !(normalize_entry(p[k].1, d) is Some);
                assert(!(normalize_entry(gs[k].1, d) is Some));
            }
        }
    }
}

/// Records that hold the same fields, written in any order, normalise to one
/// value.
pub proof fn lemma_record_congruent(
    gs1: Seq<(Seq<char>, JsonV)>,
    gs2: Seq<(Seq<char>, JsonV)>,
    d: Seq<(Seq<char>, JsonV)>,
)
    requires
        distinct_names(gs1),
        distinct_names(gs2),
        forall|f: (Seq<char>, JsonV)| #![trigger gs1.contains(f)] #![trigger gs2.contains(f)]
            gs1.contains(f) <==> gs2.contains(f),
    ensures
        record_of(JsonV::Object(gs1), d) == record_of(JsonV::Object(gs2), d),
{
    lemma_fields_elementwise(gs1, d);
    lemma_fields_elementwise(gs2, d);
    if normalize_fields(gs1, d) is None {
        let k = choose|k: int| 0 <= k < gs1.len() && !(#[trigger] normalize(gs1[k].1, d) is Some);
        assert(gs1.contains(gs1[k]));
        let m = choose|m: int| 0 <= m < gs2.len() && gs2[m] == gs1[k];
        assert(!(normalize(gs2[m].1, d) is Some));
    } else if normalize_fields(gs2, d) is None {
        let k = choose|k: int| 0 <= k < gs2.len() && !(#[trigger] normalize(gs2[k].1, d) is Some);
        assert(gs2.contains(gs2[k]));
        let m = choose|m: int| 0 <= m < gs1.len() && gs1[m] == gs2[k];
        assert(!(normalize(gs1[m].1, d) is Some));
    } else {
        let hs1 = normalize_fields(gs1, d).unwrap();
        let hs2 = normalize_fields(gs2, d).unwrap();
        let pv1 = Seq::new(hs1.len(), |i: int| field_pair(hs1[i]));
        let pv2 = Seq::new(hs2.len(), |i: int| field_pair(hs2[i]));
        assert forall|x: JsonV| pv1.contains(x) <==> pv2.contains(x) by {
            if pv1.contains(x) {
                let a = choose|a: int| 0 <= a < pv1.len() && pv1[a] == x;
                assert(hs1[a] == (gs1[a].0, normalize(gs1[a].1, d).unwrap()));
                assert(gs1.contains(gs1[a]));
                let b = choose|b: int| 0 <= b < gs2.len() && gs2[b] == gs1[a];
                assert(hs2[b] == (gs2[b].0, normalize(gs2[b].1, d).unwrap()));
                assert(pv2[b] == x);
            }
            if pv2.contains(x) {
                let a = choose|a: int| 0 <= a < pv2.len() && pv2[a] == x;
                assert(hs2[a] == (gs2[a].0, normalize(gs2[a].1, d).unwrap()));
                assert(gs2.contains(gs2[a]));
                let b = choose|b: int| 0 <= b < gs1.len() && gs1[b] == gs2[a];
                assert(hs1[b] == (gs1[b].0, normalize(gs1[b].1, d).unwrap()));
                assert(pv1[b] == x);
            }
        }
        lemma_canonical_congruent(pv1, pv2);
    }
}

/// The values of a list of fields, names dropped.
pub open spec fn field_values(gs: Seq<(Seq<char>, JsonV)>) -> Seq<JsonV> {
    Seq::new(gs.len(), |i: int| gs[i].1)
}

/// Functions whose `{domain, value}` entries are the same, under any entry
/// names, in any order and with any repeats, normalise to one value.
pub proof fn lemma_function_congruent(
    gs1: Seq<(Seq<char>, JsonV)>,
    gs2: Seq<(Seq<char>, JsonV)>,
    d: Seq<(Seq<char>, JsonV)>,
)
    requires
        same_elements(field_values(gs1), field_values(gs2)),
    ensures
        function_of(JsonV::Object(gs1), d) == function_of(JsonV::Object(gs2), d),
{
    let e1 = field_values(gs1);
    let e2 = field_values(gs2);
    lemma_entries_elementwise(gs1, d);
    lemma_entries_elementwise(gs2, d);
    if normalize_entries(gs1, d) is None {
        let k = choose|k: int| 0 <= k < gs1.len() && !(#[trigger] normalize_entry(gs1[k].1, d) is Some);
        assert(e1[k] == gs1[k].1);
        assert(e1.contains(e1[k]));
        let m = choose|m: int| 0 <= m < e2.len() && e2[m] == e1[k];
        assert(!(normalize_entry(gs2[m].1, d) is Some));
    } else if normalize_entries(gs2, d) is None {
        let k = choose|k: int| 0 <= k < gs2.len() && !(#[trigger] normalize_entry(gs2[k].1, d) is Some);
        assert(e2[k] == gs2[k].1);
        assert(e2.contains(e2[k]));
        let m = choose|m: int| 0 <= m < e1.len() && e1[m] == e2[k];
        assert(!(normalize_entry(gs1[m].1, d) is Some));
    } else {
        let ps1 = normalize_entries(gs1, d).unwrap();
        let ps2 = normalize_entries(gs2, d).unwrap();
        assert forall|x: JsonV| ps1.contains(x) <==> ps2.contains(x) by {
            if ps1.contains(x) {
                let a = choose|a: int| 0 <= a < ps1.len() && ps1[a] == x;
                assert(ps1[a] == normalize_entry(gs1[a].1, d).unwrap());
                assert(e1[a] == gs1[a].1);
                assert(e1.contains(e1[a]));
                let b = choose|b: int| 0 <= b < e2.len() && e2[b] == e1[a];
                assert(ps2[b] == normalize_entry(gs2[b].1, d).unwrap());
            }
            if ps2.contains(x) {
                let a = choose|a: int| 0 <= a < ps2.len() && ps2[a] == x;
                assert(ps2[a] == normalize_entry(gs2[a].1, d).unwrap());
                assert(e2[a] == gs2[a].1);
                assert(e2.contains(e2[a]));
                let b = choose|b: int| 0 <= b < e1.len() && e1[b] == e2[a];
                assert(ps1[b] == normalize_entry(gs1[b].1, d).unwrap());
            }
        }
        lemma_canonical_congruent(ps1, ps2);
    }
}

} // verus!
