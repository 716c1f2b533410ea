use vstd::prelude::*;
use vstd::string::{StrSliceExecFns, StringExecFns};

use crate::json::{
    lemma_view_entries_index, lemma_view_items_index, view_entries, view_items, Json, Value,
};

verus! {

pub open spec fn hex_digit(d: int) -> char {
    "0123456789abcdef"@[d]
}

/// How one character of a string is written inside JSON quotes.
pub open spec fn escape_char(c: char) -> Seq<char> {
    if c == '"' {
        "\\\""@
    } else if c == '\\' {
        "\\\\"@
    } else if c == '\n' {
        "\\n"@
    } else if c == '\r' {
        "\\r"@
    } else if c == '\t' {
        "\\t"@
    } else if c == '\x08' {
        "\\b"@
    } else if c == '\x0c' {
        "\\f"@
    } else if (c as u32) < 32 {
        "\\u00"@ + seq![hex_digit(((c as u32) / 16) as int), hex_digit(((c as u32) % 16) as int)]
    } else {
        seq![c]
    }
}

pub open spec fn escape_text(s: Seq<char>) -> Seq<char>
    decreases s.len(),
{
    if s.len() == 0 {
        Seq::empty()
    } else {
        escape_text(s.subrange(0, s.len() - 1)) + escape_char(s[s.len() - 1])
    }
}

pub open spec fn quoted(s: Seq<char>) -> Seq<char> {
    "\""@ + escape_text(s) + "\""@
}

/// The JSON text of a node, written as the snapshot store renders documents:
/// `", "` between items and `": "` after keys.
pub open spec fn render(j: Json) -> Seq<char>
    decreases j,
{
    match j {
        Json::Null => "null"@,
        Json::Bool(b) => if b { "true"@ } else { "false"@ },
        Json::Num(n) => n,
        Json::Str(s) => quoted(s),
        Json::Arr(items) => "["@ + render_items(items) + "]"@,
        Json::Obj(es) => "{"@ + render_entries(es) + "}"@,
    }
}

pub open spec fn render_items(s: Seq<Json>) -> Seq<char>
    decreases s,
{
    if s.len() == 0 {
        Seq::empty()
    } else if s.len() == 1 {
        render(s[0])
    } else {
        render_items(s.subrange(0, s.len() - 1)) + ", "@ + render(s[s.len() - 1])
    }
}

pub open spec fn render_entries(es: Seq<(Seq<char>, Json)>) -> Seq<char>
    decreases es,
{
    if es.len() == 0 {
        Seq::empty()
    } else if es.len() == 1 {
        quoted(es[0].0) + ": "@ + render(es[0].1)
    } else {
        render_entries(es.subrange(0, es.len() - 1)) + ", "@ + quoted(es[es.len() - 1].0) + ": "@
            + render(es[es.len() - 1].1)
    }
}

fn append_escaped(out: &mut String, s: &String)
    ensures
        final(out)@ == old(out)@ + escape_text(s@),
{
    let t = s.as_str();
    let n = t.unicode_len();
    let mut i: usize = 0;
    proof {
        reveal_strlit("0123456789abcdef");
    }
    assert(s@.subrange(0, 0).len() == 0);
    assert(old(out)@ + escape_text(s@.subrange(0, 0)) =~= old(out)@);
    while i < n
        invariant
            i <= n,
            n == s@.len(),
            t@ == s@,
            out@ == old(out)@ + escape_text(s@.subrange(0, i as int)),
            "0123456789abcdef"@.len() == 16,
        decreases n - i,
    {
        let c = t.get_char(i);
        let ghost before = out@;
        if c == '"' {
            out.append("\\\"");
        } else if c == '\\' {
            out.append("\\\\");
        } else if c == '\n' {
            out.append("\\n");
        } else if c == '\r' {
            out.append("\\r");
        } else if c == '\t' {
            out.append("\\t");
        } else if c == '\x08' {
            out.append("\\b");
        } else if c == '\x0c' {
            out.append("\\f");
        } else if (c as u32) < 32 {
            let code = c as u32;
            let hex = "0123456789abcdef";
            out.append("\\u00");
            let hi = (code / 16) as usize;
            let lo = (code % 16) as usize;
            out.append(hex.substring_char(hi, hi + 1));
            out.append(hex.substring_char(lo, lo + 1));
            assert("0123456789abcdef"@.subrange(hi as int, hi + 1) =~= seq![hex_digit(hi as int)]);
            assert("0123456789abcdef"@.subrange(lo as int, lo + 1) =~= seq![hex_digit(lo as int)]);
        } else {
            out.append(t.substring_char(i, i + 1));
            assert(s@.subrange(i as int, i + 1) =~= seq![c]);
        }
        assert(out@ =~= before + escape_char(c));
        assert(s@.subrange(0, i + 1).subrange(0, i as int) =~= s@.subrange(0, i as int));
        assert(s@.subrange(0, i + 1)[i as int] == c);
        assert(out@ =~= old(out)@ + escape_text(s@.subrange(0, i + 1)));
        i += 1;
    }
    assert(s@.subrange(0, n as int) =~= s@);
}

fn append_quoted(out: &mut String, s: &String)
    ensures
        final(out)@ == old(out)@ + quoted(s@),
{
    out.append("\"");
    append_escaped(out, s);
    out.append("\"");
    assert(out@ =~= old(out)@ + quoted(s@));
}

/// Appends the JSON text of `v` to `out`.
pub fn render_into(out: &mut String, v: &Value)
    ensures
        final(out)@ == old(out)@ + render(v@),
    decreases v@,
{
    match v {
        Value::Null => out.append("null"),
        Value::Bool(b) => if *b {
            out.append("true")
        } else {
            out.append("false")
        },
        Value::Number(n) => out.append(n.as_str()),
        Value::Str(s) => append_quoted(out, s),
        Value::Array(a) => {
            proof {
                lemma_view_items_index(a@);
            }
            let ghost vs = view_items(a@);
            assert(v@ == Json::Arr(vs));
            let ghost start = old(out)@;
            out.append("[");
            let mut i: usize = 0;
            assert(vs.subrange(0, 0).len() == 0);
            assert(out@ =~= start + "["@ + render_items(vs.subrange(0, 0)));
            while i < a.len()
                invariant
                    i <= a.len(),
                    v@ == Json::Arr(vs),
                    vs == view_items(a@),
                    vs.len() == a.len(),
                    forall|j: int| 0 <= j < a.len() ==> #[trigger] vs[j] == a@[j]@,
                    out@ == start + "["@ + render_items(vs.subrange(0, i as int)),
                decreases a.len() - i,
            {
                let ghost before = out@;
                if i > 0 {
                    out.append(", ");
                }
                proof {
                    assert(decreases_to!(v@ => v@->Arr_0));
                    assert(decreases_to!(vs => vs[i as int]));
                }
                render_into(out, &a[i]);
                let ghost pre = vs.subrange(0, i + 1);
                assert(pre.subrange(0, i as int) =~= vs.subrange(0, i as int));
                assert(pre[i as int] == vs[i as int]);
                if i == 0 {
                    assert(out@ =~= start + "["@ + render_items(pre));
                } else {
                    assert(out@ =~= start + "["@ + render_items(pre));
                }
                i += 1;
            }
            assert(vs.subrange(0, a.len() as int) =~= vs);
            out.append("]");
            assert(out@ =~= start + render(v@));
        },
        Value::Object(es) => {
            proof {
                lemma_view_entries_index(es@);
            }
            let ghost vs = view_entries(es@);
            assert(v@ == Json::Obj(vs));
            let ghost start = old(out)@;
            out.append("{");
            let mut i: usize = 0;
            assert(vs.subrange(0, 0).len() == 0);
            assert(out@ =~= start + "{"@ + render_entries(vs.subrange(0, 0)));
            while i < es.len()
                invariant
                    i <= es.len(),
                    v@ == Json::Obj(vs),
                    vs == view_entries(es@),
                    vs.len() == es.len(),
                    forall|j: int|
                        0 <= j < es.len() ==> #[trigger] vs[j] == (es@[j].0@, es@[j].1@),
                    out@ == start + "{"@ + render_entries(vs.subrange(0, i as int)),
                decreases es.len() - i,
            {
                if i > 0 {
                    out.append(", ");
                }
                append_quoted(out, &es[i].0);
                out.append(": ");
                proof {
                    assert(decreases_to!(v@ => v@->Obj_0));
                    assert(decreases_to!(vs => vs[i as int]));
                    assert(decreases_to!(vs[i as int] => vs[i as int].1));
                }
                render_into(out, &es[i].1);
                let ghost pre = vs.subrange(0, i + 1);
                assert(pre.subrange(0, i as int) =~= vs.subrange(0, i as int));
                assert(pre[i as int] == vs[i as int]);
                assert(out@ =~= start + "{"@ + render_entries(pre));
                i += 1;
            }
            assert(vs.subrange(0, es.len() as int) =~= vs);
            out.append("}");
            assert(out@ =~= start + render(v@));
        },
    }
}

} // verus!
