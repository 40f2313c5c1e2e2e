//! A text rendering of values and actions, for diagnostics. Strings are
//! written between double quotes as they are, without escapes.
use vstd::prelude::*;
use vstd::string::StringExecFns;
use crate::action::{Action, ActionType, ActionV};
use crate::json::{Json, JsonV, fields_view, items_view, lemma_array_view, lemma_object_view};

verus! {

broadcast use {vstd::std_specs::vec::axiom_vec_index_decreases, vstd::seq::axiom_seq_index_decreases};

/// The decimal digits of `n`.
pub open spec fn dec_text(n: nat) -> Seq<char>
    decreases n,
{
    if n < 10 {
        seq![digit_char(n)]
    } else {
        dec_text(n / 10) + seq![digit_char(n % 10)]
    }
}

pub open spec fn digit_char(d: nat) -> char {
    if d == 0 { '0' } else if d == 1 { '1' } else if d == 2 { '2' } else if d == 3 { '3' } else if d == 4 {
        '4'
    } else if d == 5 { '5' } else if d == 6 { '6' } else if d == 7 { '7' } else if d == 8 { '8' } else { '9' }
}

/// The text of a value.
pub open spec fn text_of(v: JsonV) -> Seq<char>
    decreases v,
{
    match v {
        JsonV::Null => "null"@,
        JsonV::Bool(b) => if b { "true"@ } else { "false"@ },
        JsonV::Number(t) => t,
        JsonV::Str(s) => "\""@ + s + "\""@,
        JsonV::Array(xs) => "["@ + items_text(xs) + "]"@,
        JsonV::Object(fs) => "{"@ + fields_text(fs) + "}"@,
    }
}

/// Elements separated by commas.
pub open spec fn items_text(xs: Seq<JsonV>) -> Seq<char>
    decreases xs,
{
    if xs.len() == 0 {
        Seq::empty()
    } else {
        let p = xs.subrange(0, xs.len() - 1);
        items_text(p) + (if p.len() == 0 { Seq::empty() } else { ","@ }) + text_of(xs[xs.len() - 1])
    }
}

/// Fields `"name":value` separated by commas.
pub open spec fn fields_text(fs: Seq<(Seq<char>, JsonV)>) -> Seq<char>
    decreases fs,
{
    if fs.len() == 0 {
        Seq::empty()
    } else {
        let p = fs.subrange(0, fs.len() - 1);
        let f = fs[fs.len() - 1];
        fields_text(p) + (if p.len() == 0 { Seq::empty() } else { ","@ }) + "\""@ + f.0 + "\":"@
            + text_of(f.1)
    }
}

pub open spec fn type_text(t: ActionType) -> Seq<char> {
    match t {
        ActionType::Input => "Input"@,
        ActionType::Output => "Output"@,
        ActionType::Internal => "Internal"@,
        ActionType::Setup => "Setup"@,
        ActionType::Check => "Check"@,
    }
}

/// An action as `Type source->dest payload`.
pub open spec fn action_text(a: ActionV) -> Seq<char> {
    type_text(a.action_type) + " "@ + dec_text(a.source as nat) + "->"@ + dec_text(a.dest as nat) + " "@
        + text_of(a.payload)
}

/// Appends the decimal digits of `n`.
pub fn write_dec(n: u64, out: &mut String)
    ensures
        final(out)@ == old(out)@ + dec_text(n as nat),
    decreases n,
{
    if n >= 10 {
        write_dec(n / 10, out);
    }
    let d = n % 10;
    let s = if d == 0 { "0" } else if d == 1 { "1" } else if d == 2 { "2" } else if d == 3 { "3" } else if d
        == 4 { "4" } else if d == 5 { "5" } else if d == 6 { "6" } else if d == 7 { "7" } else if d == 8 {
        "8"
    } else { "9" };
    proof {
        reveal_strlit("0");
        reveal_strlit("1");
        reveal_strlit("2");
        reveal_strlit("3");
        reveal_strlit("4");
        reveal_strlit("5");
        reveal_strlit("6");
        reveal_strlit("7");
        reveal_strlit("8");
        reveal_strlit("9");
        assert(s@ =~= seq![digit_char(d as nat)]);
    }
    out.append(s);
    proof {
        if n < 10 {
            assert(d == n);
            assert(seq![digit_char(n as nat)] =~= Seq::<char>::empty() + seq![digit_char(n as nat)]);
        }
    }
}

/// Appends the text of a value.
pub fn write_json(v: &Json, out: &mut String)
    ensures
        final(out)@ == old(out)@ + text_of(v@),
    decreases v,
{
    match v {
        Json::Null => out.append("null"),
        Json::Bool(b) => if *b {
            out.append("true")
        } else {
            out.append("false")
        },
        Json::Number(t) => out.append(t.as_str()),
        Json::Str(s) => {
            out.append("\"");
            out.append(s.as_str());
            out.append("\"");
        },
        Json::Array(xs) => {
            proof {
                lemma_array_view(*xs);
            }
            let ghost sx = items_view(xs@);
            let ghost start = out@;
            out.append("[");
            let mut i: usize = 0;
            proof {
                assert(sx.subrange(0, 0) =~= Seq::<JsonV>::empty());
            }
            while i < xs.len()
                invariant
                    i <= xs.len(),
                    sx == items_view(xs@),
                    *v == Json::Array(*xs),
                    out@ == start + "["@ + items_text(sx.subrange(0, i as int)),
                decreases xs.len() - i,
            {
                proof {
                    assert(decreases_to!(*v => (*v)->Array_0));
                    assert(decreases_to!(*xs => xs[i as int]));
                    let p = sx.subrange(0, i as int + 1);
                    assert(p.subrange(0, i as int) =~= sx.subrange(0, i as int));
                }
                if i > 0 {
                    out.append(",");
                }
                write_json(&xs[i], out);
                i = i + 1;
            }
            out.append("]");
            proof {
                assert(sx.subrange(0, sx.len() as int) =~= sx);
            }
        },
        Json::Object(fs) => {
            proof {
                lemma_object_view(*fs);
            }
            let ghost sf = fields_view(fs@);
            let ghost start = out@;
            out.append("{");
            let mut i: usize = 0;
            proof {
                assert(sf.subrange(0, 0) =~= Seq::<(Seq<char>, JsonV)>::empty());
            }
            while i < fs.len()
                invariant
                    i <= fs.len(),
                    sf == fields_view(fs@),
                    *v == Json::Object(*fs),
                    out@ == start + "{"@ + fields_text(sf.subrange(0, i as int)),
                decreases fs.len() - i,
            {
                proof {
                    assert(decreases_to!(*v => (*v)->Object_0));
                    assert(decreases_to!(*fs => fs[i as int]));
                    assert(decreases_to!(fs[i as int] => fs[i as int].1));
                    let p = sf.subrange(0, i as int + 1);
                    assert(p.subrange(0, i as int) =~= sf.subrange(0, i as int));
                }
                if i > 0 {
                    out.append(",");
                }
                out.append("\"");
                out.append(fs[i].0.as_str());
                out.append("\":");
                write_json(&fs[i].1, out);
                i = i + 1;
            }
            out.append("}");
            proof {
                assert(sf.subrange(0, sf.len() as int) =~= sf);
            }
        },
    }
}

/// Appends the text of an action.
pub fn write_action(a: &Action, out: &mut String)
    ensures
        final(out)@ == old(out)@ + action_text(a@),
{
    let ghost start = out@;
    match a.action_type {
        ActionType::Input => out.append("Input"),
        ActionType::Output => out.append("Output"),
        ActionType::Internal => out.append("Internal"),
        ActionType::Setup => out.append("Setup"),
        ActionType::Check => out.append("Check"),
    }
    out.append(" ");
    write_dec(a.source, out);
    out.append("->");
    write_dec(a.dest, out);
    out.append(" ");
    write_json(&a.payload, out);
    proof {
        assert(out@ =~= start + action_text(a@));
    }
}

} // verus!
