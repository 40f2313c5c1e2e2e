//! A JSON value owned by the library, its mathematical model and a total order on it.
use vstd::prelude::*;
use vstd::utf8::encode_utf8;

verus! {

broadcast use {vstd::std_specs::vec::axiom_vec_index_decreases, vstd::seq::axiom_seq_index_decreases, vstd::std_specs::vec::axiom_vec_decreases_to_view};

/// A JSON value. Numbers keep their textual form, so that integers and reals
/// travel unchanged; object fields keep the order in which they were written.
#[derive(Debug)]
pub enum Json {
    Null,
    Bool(bool),
    Number(String),
    Str(String),
    Array(Vec<Json>),
    Object(Vec<(String, Json)>),
}

/// The mathematical model of a `Json` value.
pub enum JsonV {
    Null,
    Bool(bool),
    Number(Seq<char>),
    Str(Seq<char>),
    Array(Seq<JsonV>),
    Object(Seq<(Seq<char>, JsonV)>),
}

impl Json {
    pub open spec fn view(self) -> JsonV
        decreases self,
    {
        match self {
            Json::Null => JsonV::Null,
            Json::Bool(b) => JsonV::Bool(b),
            Json::Number(s) => JsonV::Number(s@),
            Json::Str(s) => JsonV::Str(s@),
            Json::Array(v) => JsonV::Array(
                Seq::new(v.len() as nat, |i: int| if 0 <= i < v.len() { v@[i].view() } else { JsonV::Null }),
            ),
            Json::Object(v) => JsonV::Object(
                Seq::new(
                    v.len() as nat,
                    |i: int| if 0 <= i < v.len() { (v@[i].0@, v@[i].1.view()) } else { (Seq::empty(), JsonV::Null) },
                ),
            ),
        }
    }
}


/// Lexicographic comparison of two byte strings: negative, zero or positive.
pub open spec fn cmp_bytes(a: Seq<u8>, b: Seq<u8>) -> int
    decreases a.len(),
{
    if a.len() == 0 {
        if b.len() == 0 { 0 } else { -1 }
    } else if b.len() == 0 {
        1
    } else if a[0] < b[0] {
        -1
    } else if a[0] > b[0] {
        1
    } else {
        cmp_bytes(a.subrange(1, a.len() as int), b.subrange(1, b.len() as int))
    }
}

/// Text is ordered by its UTF-8 encoding.
pub open spec fn cmp_text(a: Seq<char>, b: Seq<char>) -> int {
    cmp_bytes(encode_utf8(a), encode_utf8(b))
}

/// The position of a value's variant in the order: null, booleans, numbers,
/// strings, arrays, objects.
pub open spec fn rank(v: JsonV) -> int {
    match v {
        JsonV::Null => 0,
        JsonV::Bool(_) => 1,
        JsonV::Number(_) => 2,
        JsonV::Str(_) => 3,
        JsonV::Array(_) => 4,
        JsonV::Object(_) => 5,
    }
}

/// The total order on values used to make sets and maps canonical: first by
/// variant, then by content; lists and objects are compared element by element.
pub open spec fn cmp_json(a: JsonV, b: JsonV) -> int
    decreases a,
{
    if rank(a) < rank(b) {
        -1
    } else if rank(a) > rank(b) {
        1
    } else {
        match a {
            JsonV::Null => 0,
            JsonV::Bool(x) => {
                let y = b->Bool_0;
                if x == y { 0 } else if !x { -1 } else { 1 }
            },
            JsonV::Number(x) => cmp_text(x, b->Number_0),
            JsonV::Str(x) => cmp_text(x, b->Str_0),
            JsonV::Array(xs) => cmp_items(xs, b->Array_0),
            JsonV::Object(xs) => cmp_fields(xs, b->Object_0),
        }
    }
}

pub open spec fn cmp_items(xs: Seq<JsonV>, ys: Seq<JsonV>) -> int
    decreases xs,
{
    if xs.len() == 0 {
        if ys.len() == 0 { 0 } else { -1 }
    } else if ys.len() == 0 {
        1
    } else {
        let c = cmp_json(xs[0], ys[0]);
        if c != 0 {
            c
        } else {
            cmp_items(xs.subrange(1, xs.len() as int), ys.subrange(1, ys.len() as int))
        }
    }
}

pub open spec fn cmp_fields(xs: Seq<(Seq<char>, JsonV)>, ys: Seq<(Seq<char>, JsonV)>) -> int
    decreases xs,
{
    if xs.len() == 0 {
        if ys.len() == 0 { 0 } else { -1 }
    } else if ys.len() == 0 {
        1
    } else {
        let k = cmp_text(xs[0].0, ys[0].0);
        let c = cmp_json(xs[0].1, ys[0].1);
        if k != 0 {
            k
        } else if c != 0 {
            c
        } else {
            cmp_fields(xs.subrange(1, xs.len() as int), ys.subrange(1, ys.len() as int))
        }
    }
}

/// The models of a list of values, element by element.
pub open spec fn items_view(v: Seq<Json>) -> Seq<JsonV> {
    Seq::new(v.len(), |i: int| v[i]@)
}

/// The models of a list of fields, element by element.
pub open spec fn fields_view(v: Seq<(String, Json)>) -> Seq<(Seq<char>, JsonV)> {
    Seq::new(v.len(), |i: int| (v[i].0@, v[i].1@))
}

pub proof fn lemma_array_view(v: Vec<Json>)
    ensures
        Json::Array(v)@ == JsonV::Array(items_view(v@)),
{
    assert(JsonV::Array(items_view(v@)) == Json::Array(v)@) by {
        match Json::Array(v)@ {
            JsonV::Array(s) => {
                assert(s =~= items_view(v@));
            },
            _ => {},
        }
    }
}

pub proof fn lemma_object_view(v: Vec<(String, Json)>)
    ensures
        Json::Object(v)@ == JsonV::Object(fields_view(v@)),
{
    assert(JsonV::Object(fields_view(v@)) == Json::Object(v)@) by {
        match Json::Object(v)@ {
            JsonV::Object(s) => {
                assert(s =~= fields_view(v@));
            },
            _ => {},
        }
    }
}

impl Json {
    /// A copy of the whole tree.
    pub fn deep_clone(&self) -> (r: Json)
        ensures
            r@ == self@,
        decreases self,
    {
        match self {
            Json::Null => Json::Null,
            Json::Bool(b) => Json::Bool(*b),
            Json::Number(s) => Json::Number(s.clone()),
            Json::Str(s) => Json::Str(s.clone()),
            Json::Array(v) => {
                let mut out: Vec<Json> = Vec::new();
                let mut i: usize = 0;
                while i < v.len()
                    invariant
                        i <= v.len(),
                        out.len() == i,
                        forall|k: int| 0 <= k < i ==> out@[k]@ == v@[k]@,
                        *self == Json::Array(*v),
                    decreases v.len() - i,
                {
                    proof {
                        assert(decreases_to!(*v => v[i as int]));
                        assert(decreases_to!(*self => (*self)->Array_0));
                        assert(decreases_to!(*self => v[i as int]));
                    }
                    let c = v[i].deep_clone();
                    out.push(c);
                    i = i + 1;
                }
                proof {
                    lemma_array_view(out);
                    lemma_array_view(*v);
                    assert(items_view(out@) =~= items_view(v@));
                }
                Json::Array(out)
            },
            Json::Object(v) => {
                let mut out: Vec<(String, Json)> = Vec::new();
                let mut i: usize = 0;
                while i < v.len()
                    invariant
                        i <= v.len(),
                        out.len() == i,
                        forall|k: int| 0 <= k < i ==> out@[k].0@ == v@[k].0@ && out@[k].1@ == v@[k].1@,
                        *self == Json::Object(*v),
                    decreases v.len() - i,
                {
                    proof {
                        assert(decreases_to!(*v => v[i as int]));
                        assert(decreases_to!(*self => (*self)->Object_0));
                        assert(decreases_to!(v[i as int] => v[i as int].1));
                        assert(decreases_to!(*self => v[i as int].1));
                    }
                    let c = v[i].1.deep_clone();
                    out.push((v[i].0.clone(), c));
                    i = i + 1;
                }
                proof {
                    lemma_object_view(out);
                    lemma_object_view(*v);
                    assert(fields_view(out@) =~= fields_view(v@));
                }
                Json::Object(out)
            },
        }
    }
}

/// Compares two strings by their UTF-8 encoding.
pub fn compare_text(a: &String, b: &String) -> (r: i8)
    ensures
        r as int == cmp_text(a@, b@),
        -1 <= r <= 1,
{
    let x = a.as_str().as_bytes();
    let y = b.as_str().as_bytes();
    let ghost xs = x@;
    let ghost ys = y@;
    let mut i: usize = 0;
    proof {
        assert(xs.subrange(0, xs.len() as int) =~= xs);
        assert(ys.subrange(0, ys.len() as int) =~= ys);
    }
    while i < x.len() && i < y.len() && x[i] == y[i]
        invariant
            i <= xs.len(),
            i <= ys.len(),
            x@ == xs,
            y@ == ys,
            xs == encode_utf8(a@),
            ys == encode_utf8(b@),
            cmp_bytes(xs, ys) == cmp_bytes(
                xs.subrange(i as int, xs.len() as int),
                ys.subrange(i as int, ys.len() as int),
            ),
        decreases xs.len() - i,
    {
        proof {
            let sx = xs.subrange(i as int, xs.len() as int);
            let sy = ys.subrange(i as int, ys.len() as int);
            assert(sx.subrange(1, sx.len() as int) =~= xs.subrange(i + 1, xs.len() as int));
            assert(sy.subrange(1, sy.len() as int) =~= ys.subrange(i + 1, ys.len() as int));
        }
        i = i + 1;
    }
    if i == x.len() {
        if i == y.len() {
            0
        } else {
            -1
        }
    } else if i == y.len() {
        1
    } else if x[i] < y[i] {
        -1
    } else {
        1
    }
}

impl Json {
    /// The position of this value's variant in the order.
    pub fn rank(&self) -> (r: u8)
        ensures
            r as int == rank(self@),
    {
        match self {
            Json::Null => 0,
            Json::Bool(_) => 1,
            Json::Number(_) => 2,
            Json::Str(_) => 3,
            Json::Array(_) => 4,
            Json::Object(_) => 5,
        }
    }
}

/// Compares two values in the canonical order.
pub fn compare(a: &Json, b: &Json) -> (r: i8)
    ensures
        r as int == cmp_json(a@, b@),
        -1 <= r <= 1,
    decreases a,
{
    let ra = a.rank();
    let rb = b.rank();
    if ra < rb {
        return -1;
    }
    if ra > rb {
        return 1;
    }
    match (a, b) {
        (Json::Bool(x), Json::Bool(y)) => {
            if *x == *y {
                0
            } else if !*x {
                -1
            } else {
                1
            }
        },
        (Json::Number(x), Json::Number(y)) => compare_text(x, y),
        (Json::Str(x), Json::Str(y)) => compare_text(x, y),
        (Json::Array(xs), Json::Array(ys)) => {
            proof {
                lemma_array_view(*xs);
                lemma_array_view(*ys);
            }
            let ghost sx = items_view(xs@);
            let ghost sy = items_view(ys@);
            let mut i: usize = 0;
            proof {
                assert(sx.subrange(0, sx.len() as int) =~= sx);
                assert(sy.subrange(0, sy.len() as int) =~= sy);
            }
            while i < xs.len() && i < ys.len()
                invariant
                    i <= xs.len(),
                    i <= ys.len(),
                    *a == Json::Array(*xs),
                    sx == items_view(xs@),
                    sy == items_view(ys@),
                    cmp_json(a@, b@) == cmp_items(
                        sx.subrange(i as int, sx.len() as int),
                        sy.subrange(i as int, sy.len() as int),
                    ),
                decreases xs.len() - i,
            {
                proof {
                    assert(decreases_to!(*a => (*a)->Array_0));
                    assert(decreases_to!(*xs => xs[i as int]));
                }
                let c = compare(&xs[i], &ys[i]);
                proof {
                    let tx = sx.subrange(i as int, sx.len() as int);
                    let ty = sy.subrange(i as int, sy.len() as int);
                    assert(tx[0] == xs@[i as int]@);
                    assert(ty[0] == ys@[i as int]@);
                    assert(tx.subrange(1, tx.len() as int) =~= sx.subrange(i + 1, sx.len() as int));
                    assert(ty.subrange(1, ty.len() as int) =~= sy.subrange(i + 1, sy.len() as int));
                }
                if c != 0 {
                    return c;
                }
                i = i + 1;
            }
            if i == xs.len() {
                if i == ys.len() {
                    0
                } else {
                    -1
                }
            } else {
                1
            }
        },
        (Json::Object(xs), Json::Object(ys)) => {
            proof {
                lemma_object_view(*xs);
                lemma_object_view(*ys);
            }
            let ghost sx = fields_view(xs@);
            let ghost sy = fields_view(ys@);
            let mut i: usize = 0;
            proof {
                assert(sx.subrange(0, sx.len() as int) =~= sx);
                assert(sy.subrange(0, sy.len() as int) =~= sy);
            }
            while i < xs.len() && i < ys.len()
                invariant
                    i <= xs.len(),
                    i <= ys.len(),
                    *a == Json::Object(*xs),
                    sx == fields_view(xs@),
                    sy == fields_view(ys@),
                    cmp_json(a@, b@) == cmp_fields(
                        sx.subrange(i as int, sx.len() as int),
                        sy.subrange(i as int, sy.len() as int),
                    ),
                decreases xs.len() - i,
            {
                proof {
                    assert(decreases_to!(*a => (*a)->Object_0));
                    assert(decreases_to!(*xs => xs[i as int]));
                    assert(decreases_to!(xs[i as int] => xs[i as int].1));
                }
                let k = compare_text(&xs[i].0, &ys[i].0);
                let c = compare(&xs[i].1, &ys[i].1);
                proof {
                    let tx = sx.subrange(i as int, sx.len() as int);
                    let ty = sy.subrange(i as int, sy.len() as int);
                    assert(tx[0] == (xs@[i as int].0@, xs@[i as int].1@));
                    assert(ty[0] == (ys@[i as int].0@, ys@[i as int].1@));
                    assert(tx.subrange(1, tx.len() as int) =~= sx.subrange(i + 1, sx.len() as int));
                    assert(ty.subrange(1, ty.len() as int) =~= sy.subrange(i + 1, sy.len() as int));
                }
                if k != 0 {
                    return k;
                }
                if c != 0 {
                    return c;
                }
                i = i + 1;
            }
            if i == xs.len() {
                if i == ys.len() {
                    0
                } else {
                    -1
                }
            } else {
                1
            }
        },
        _ => 0,
    }
}

} // verus!
