//! The document encoding: the store is persisted as a single JSON document
//! whose top-level object maps each key to its value. The encoder emits one
//! canonical form; the decoder reads it back, treating anything malformed as
//! an unreadable document. Decoding inverts encoding, which is proved here.

use vstd::prelude::*;
use vstd::string::StrSliceExecFns;

use crate::store::{entries_ok, unique_keys, value_ok, Entry, EntryView, Store, Value, ValueView};
use crate::tasks::{Task, TaskView};
use crate::text::{
    chars_to_string, dec_digits, dec_int, esc_str, is_digit, lemma_dec_digits_shape,
    lemma_p_nat_inverts, lemma_p_str_inverts, p_nat, p_str_body, push_dec_i64, push_escaped,
    push_str_chars, scan_digits, str_to_chars, unesc_char,
};

verus! {

/// The largest magnitude a stored integer can carry as a negative value.
pub open spec fn i64_neg_mag() -> int {
    9223372036854775808
}

/// A quoted, escaped string.
pub open spec fn enc_string(s: Seq<char>) -> Seq<char> {
    seq!['"'] + esc_str(s) + seq!['"']
}

/// A boolean literal.
pub open spec fn enc_bool(b: bool) -> Seq<char> {
    if b {
        "true"@
    } else {
        "false"@
    }
}

/// One task as an object with its title and completion flag.
pub open spec fn enc_task(t: TaskView) -> Seq<char> {
    "{\"title\":"@ + enc_string(t.title) + ",\"completed\":"@ + enc_bool(t.completed)
        + seq!['}']
}

/// The tasks of a non-empty list, separated by commas.
pub open spec fn enc_task_items(ts: Seq<TaskView>) -> Seq<char>
    decreases ts.len(),
{
    if ts.len() == 0 {
        Seq::empty()
    } else if ts.len() == 1 {
        enc_task(ts[0])
    } else {
        enc_task(ts[0]) + seq![','] + enc_task_items(ts.drop_first())
    }
}

/// A task list as an array.
pub open spec fn enc_task_list(ts: Seq<TaskView>) -> Seq<char> {
    seq!['['] + enc_task_items(ts) + seq![']']
}

/// A stored value in its JSON form.
pub open spec fn enc_value(v: ValueView) -> Seq<char> {
    match v {
        ValueView::Str(s) => enc_string(s),
        ValueView::Bool(b) => enc_bool(b),
        ValueView::Int(i) => dec_int(i),
        ValueView::Tasks(ts) => enc_task_list(ts),
    }
}

/// One document entry: its quoted key and its value.
pub open spec fn enc_entry(e: EntryView) -> Seq<char> {
    enc_string(e.key) + seq![':'] + enc_value(e.value)
}

/// The entries of a non-empty document, separated by commas.
pub open spec fn enc_entry_items(s: Seq<EntryView>) -> Seq<char>
    decreases s.len(),
{
    if s.len() == 0 {
        Seq::empty()
    } else if s.len() == 1 {
        enc_entry(s[0])
    } else {
        enc_entry(s[0]) + seq![','] + enc_entry_items(s.drop_first())
    }
}

/// The whole document as one object.
pub open spec fn enc_doc(s: Seq<EntryView>) -> Seq<char> {
    seq!['{'] + enc_entry_items(s) + seq!['}']
}

/// Whether `s` begins with `pre`.
pub open spec fn starts_with(s: Seq<char>, pre: Seq<char>) -> bool {
    s.len() >= pre.len() && s.take(pre.len() as int) == pre
}

/// Reads the exact characters of `lit` off the front of `s`.
pub open spec fn p_lit(s: Seq<char>, lit: Seq<char>) -> Option<Seq<char>> {
    if starts_with(s, lit) {
        Some(s.skip(lit.len() as int))
    } else {
        None
    }
}

/// Reads a quoted string.
pub open spec fn p_string(s: Seq<char>) -> Option<(Seq<char>, Seq<char>)> {
    if s.len() > 0 && s[0] == '"' {
        p_str_body(s.drop_first())
    } else {
        None
    }
}

/// Reads a boolean literal.
pub open spec fn p_bool(s: Seq<char>) -> Option<(bool, Seq<char>)> {
    if starts_with(s, "true"@) {
        Some((true, s.skip(4)))
    } else if starts_with(s, "false"@) {
        Some((false, s.skip(5)))
    } else {
        None
    }
}

/// Reads an integer that fits the stored integer type.
pub open spec fn p_int(s: Seq<char>) -> Option<(int, Seq<char>)> {
    if s.len() > 0 && s[0] == '-' {
        match p_nat(s.drop_first()) {
            Some((m, rest)) => if m <= i64_neg_mag() {
                Some((-m, rest))
            } else {
                None
            },
            None => None,
        }
    } else {
        match p_nat(s) {
            Some((m, rest)) => if m <= i64::MAX as int {
                Some((m, rest))
            } else {
                None
            },
            None => None,
        }
    }
}

/// Reads one task object.
pub open spec fn p_task(s: Seq<char>) -> Option<(TaskView, Seq<char>)> {
    match p_lit(s, "{\"title\":"@) {
        Some(s1) => match p_string(s1) {
            Some((title, s2)) => match p_lit(s2, ",\"completed\":"@) {
                Some(s3) => match p_bool(s3) {
                    Some((b, s4)) => if s4.len() > 0 && s4[0] == '}' {
                        Some((TaskView { title, completed: b }, s4.drop_first()))
                    } else {
                        None
                    },
                    None => None,
                },
                None => None,
            },
            None => None,
        },
        None => None,
    }
}

/// Reads the tasks of a non-empty array and its closing bracket.
pub open spec fn p_task_items(s: Seq<char>) -> Option<(Seq<TaskView>, Seq<char>)>
    decreases s.len(),
{
    match p_task(s) {
        Some((t, rest)) => if rest.len() > 0 && rest[0] == ',' {
            if rest.len() < s.len() {
                match p_task_items(rest.drop_first()) {
                    Some((ts, r)) => Some((seq![t] + ts, r)),
                    None => None,
                }
            } else {
                None
            }
        } else if rest.len() > 0 && rest[0] == ']' {
            Some((seq![t], rest.drop_first()))
        } else {
            None
        },
        None => None,
    }
}

/// Reads a task array.
pub open spec fn p_task_list(s: Seq<char>) -> Option<(Seq<TaskView>, Seq<char>)> {
    if s.len() >= 2 && s[0] == '[' && s[1] == ']' {
        Some((Seq::empty(), s.skip(2)))
    } else if s.len() > 0 && s[0] == '[' {
        p_task_items(s.drop_first())
    } else {
        None
    }
}

/// Reads one value, telling the kinds apart by the first character.
pub open spec fn p_value(s: Seq<char>) -> Option<(ValueView, Seq<char>)> {
    if s.len() == 0 {
        None
    } else if s[0] == '"' {
        match p_str_body(s.drop_first()) {
            Some((x, rest)) => Some((ValueView::Str(x), rest)),
            None => None,
        }
    } else if s[0] == 't' || s[0] == 'f' {
        match p_bool(s) {
            Some((b, rest)) => Some((ValueView::Bool(b), rest)),
            None => None,
        }
    } else if s[0] == '[' {
        match p_task_list(s) {
            Some((ts, rest)) => Some((ValueView::Tasks(ts), rest)),
            None => None,
        }
    } else {
        match p_int(s) {
            Some((i, rest)) => Some((ValueView::Int(i), rest)),
            None => None,
        }
    }
}

/// Reads one entry: a quoted key, a colon, a value.
pub open spec fn p_entry(s: Seq<char>) -> Option<(EntryView, Seq<char>)> {
    match p_string(s) {
        Some((key, s1)) => if s1.len() > 0 && s1[0] == ':' {
            match p_value(s1.drop_first()) {
                Some((v, rest)) => Some((EntryView { key, value: v }, rest)),
                None => None,
            }
        } else {
            None
        },
        None => None,
    }
}

/// Reads the entries of a non-empty object and its closing brace.
pub open spec fn p_entry_items(s: Seq<char>) -> Option<(Seq<EntryView>, Seq<char>)>
    decreases s.len(),
{
    match p_entry(s) {
        Some((e, rest)) => if rest.len() > 0 && rest[0] == ',' {
            if rest.len() < s.len() {
                match p_entry_items(rest.drop_first()) {
                    Some((es, r)) => Some((seq![e] + es, r)),
                    None => None,
                }
            } else {
                None
            }
        } else if rest.len() > 0 && rest[0] == '}' {
            Some((seq![e], rest.drop_first()))
        } else {
            None
        },
        None => None,
    }
}

/// Reads a whole document; nothing may follow the closing brace.
pub open spec fn p_doc(s: Seq<char>) -> Option<Seq<EntryView>> {
    if s.len() >= 2 && s[0] == '{' && s[1] == '}' {
        if s.len() == 2 {
            Some(Seq::empty())
        } else {
            None
        }
    } else if s.len() > 0 && s[0] == '{' {
        match p_entry_items(s.drop_first()) {
            Some((es, rest)) => if rest.len() == 0 {
                Some(es)
            } else {
                None
            },
            None => None,
        }
    } else {
        None
    }
}

/// What a document reads back as: its entries, where they parse and no key
/// repeats.
pub open spec fn spec_decode(s: Seq<char>) -> Option<Seq<EntryView>> {
    match p_doc(s) {
        Some(es) => if unique_keys(es) {
            Some(es)
        } else {
            None
        },
        None => None,
    }
}

pub proof fn lemma_p_lit(lit: Seq<char>, rest: Seq<char>)
    ensures
        p_lit(lit + rest, lit) == Some(rest),
{
    assert((lit + rest).take(lit.len() as int) =~= lit);
    assert((lit + rest).skip(lit.len() as int) =~= rest);
}

pub proof fn lemma_p_string_inverts(x: Seq<char>, rest: Seq<char>)
    ensures
        p_string(enc_string(x) + rest) == Some((x, rest)),
{
    let s = enc_string(x) + rest;
    assert(s[0] == '"');
    assert(s.drop_first() =~= esc_str(x) + seq!['"'] + rest);
    lemma_p_str_inverts(x, rest);
}

pub proof fn lemma_p_bool_inverts(b: bool, rest: Seq<char>)
    ensures
        p_bool(enc_bool(b) + rest) == Some((b, rest)),
{
    reveal_strlit("true");
    reveal_strlit("false");
    let s = enc_bool(b) + rest;
    if b {
        assert(s.take(4) =~= "true"@);
        assert(s.skip(4) =~= rest);
    } else {
        assert(s.take(5) =~= "false"@);
        assert(s.skip(5) =~= rest);
        assert(!starts_with(s, "true"@)) by {
            if starts_with(s, "true"@) {
                assert(s.take(4)[0] == 't');
                assert(s[0] == 'f');
            }
        }
    }
}

pub proof fn lemma_p_int_inverts(v: int, rest: Seq<char>)
    requires
        i64::MIN <= v <= i64::MAX,
        rest.len() == 0 || !is_digit(rest[0]),
    ensures
        p_int(dec_int(v) + rest) == Some((v, rest)),
{
    let s = dec_int(v) + rest;
    if v < 0 {
        let m = (-v) as nat;
        assert(s[0] == '-');
        assert(s.drop_first() =~= dec_digits(m) + rest);
        lemma_p_nat_inverts(m, rest);
        assert(m <= i64_neg_mag());
    } else {
        lemma_p_nat_inverts(v as nat, rest);
        lemma_dec_digits_shape(v as nat);
        assert(s[0] == dec_digits(v as nat)[0]);
        assert(is_digit(s[0]));
        assert(s[0] != '-') by {
            assert(s[0] as u32 >= 48);
        }
    }
}

pub proof fn lemma_p_task_inverts(t: TaskView, rest: Seq<char>)
    ensures
        p_task(enc_task(t) + rest) == Some((t, rest)),
{
    let s = enc_task(t) + rest;
    let lit1 = "{\"title\":"@;
    let lit2 = ",\"completed\":"@;
    let r4 = seq!['}'] + rest;
    let r3 = enc_bool(t.completed) + r4;
    let r2 = lit2 + r3;
    let r1 = enc_string(t.title) + r2;
    assert(s =~= lit1 + r1);
    lemma_p_lit(lit1, r1);
    lemma_p_string_inverts(t.title, r2);
    lemma_p_lit(lit2, r3);
    lemma_p_bool_inverts(t.completed, r4);
    assert(r4[0] == '}');
    assert(r4.drop_first() =~= rest);
}

pub proof fn lemma_enc_task_len(t: TaskView)
    ensures
        enc_task(t).len() >= 9,
        enc_task(t)[0] == '{',
{
    reveal_strlit("{\"title\":");
    assert("{\"title\":"@.len() == 9);
    assert("{\"title\":"@[0] == '{');
    assert(enc_task(t)[0] == "{\"title\":"@[0]);
}

pub proof fn lemma_p_task_items_inverts(ts: Seq<TaskView>, rest: Seq<char>)
    requires
        ts.len() >= 1,
    ensures
        p_task_items(enc_task_items(ts) + seq![']'] + rest) == Some((ts, rest)),
    decreases ts.len(),
{
    let s = enc_task_items(ts) + seq![']'] + rest;
    if ts.len() == 1 {
        let r = seq![']'] + rest;
        assert(s =~= enc_task(ts[0]) + r);
        lemma_p_task_inverts(ts[0], r);
        assert(r[0] == ']');
        assert(r.drop_first() =~= rest);
        assert(seq![ts[0]] =~= ts);
    } else {
        let tail = enc_task_items(ts.drop_first()) + seq![']'] + rest;
        let r = seq![','] + tail;
        assert(s =~= enc_task(ts[0]) + r);
        lemma_p_task_inverts(ts[0], r);
        assert(r[0] == ',');
        lemma_enc_task_len(ts[0]);
        assert(r.len() < s.len());
        assert(r.drop_first() =~= tail);
        lemma_p_task_items_inverts(ts.drop_first(), rest);
        assert(seq![ts[0]] + ts.drop_first() =~= ts);
    }
}

pub proof fn lemma_p_task_list_inverts(ts: Seq<TaskView>, rest: Seq<char>)
    ensures
        p_task_list(enc_task_list(ts) + rest) == Some((ts, rest)),
{
    let s = enc_task_list(ts) + rest;
    assert(s[0] == '[');
    if ts.len() == 0 {
        assert(enc_task_items(ts) =~= Seq::<char>::empty());
        assert(s =~= seq!['[', ']'] + rest);
        assert(s[1] == ']');
        assert(s.skip(2) =~= rest);
    } else {
        lemma_enc_task_len(ts[0]);
        assert(enc_task_items(ts)[0] == enc_task(ts[0])[0]);
        assert(s[1] == enc_task_items(ts)[0]);
        assert(s[1] != ']');
        assert(s.drop_first() =~= enc_task_items(ts) + seq![']'] + rest);
        lemma_p_task_items_inverts(ts, rest);
    }
}

pub proof fn lemma_p_value_inverts(v: ValueView, rest: Seq<char>)
    requires
        value_ok(v),
        rest.len() == 0 || !is_digit(rest[0]),
    ensures
        p_value(enc_value(v) + rest) == Some((v, rest)),
{
    let s = enc_value(v) + rest;
    match v {
        ValueView::Str(x) => {
            assert(s[0] == '"');
            assert(s.drop_first() =~= esc_str(x) + seq!['"'] + rest);
            lemma_p_str_inverts(x, rest);
        },
        ValueView::Bool(b) => {
            reveal_strlit("true");
            reveal_strlit("false");
            assert(s[0] == enc_bool(b)[0]);
            if b {
                assert(s[0] == 't');
            } else {
                assert(s[0] == 'f');
            }
            lemma_p_bool_inverts(b, rest);
        },
        ValueView::Int(i) => {
            lemma_dec_digits_shape(if i < 0 {
                (-i) as nat
            } else {
                i as nat
            });
            assert(s[0] == dec_int(i)[0]);
            if i < 0 {
                assert(s[0] == '-');
            } else {
                assert(is_digit(s[0]));
            }
            assert(s[0] != '"' && s[0] != 't' && s[0] != 'f' && s[0] != '[') by {
                assert(s[0] as u32 == 45 || (48 <= s[0] as u32 <= 57));
            }
            lemma_p_int_inverts(i, rest);
        },
        ValueView::Tasks(ts) => {
            assert(s[0] == '[');
            assert(s =~= enc_task_list(ts) + rest);
            lemma_p_task_list_inverts(ts, rest);
        },
    }
}

pub proof fn lemma_p_entry_inverts(e: EntryView, rest: Seq<char>)
    requires
        value_ok(e.value),
        rest.len() == 0 || !is_digit(rest[0]),
    ensures
        p_entry(enc_entry(e) + rest) == Some((e, rest)),
{
    let s = enc_entry(e) + rest;
    let r2 = enc_value(e.value) + rest;
    let r1 = seq![':'] + r2;
    assert(s =~= enc_string(e.key) + r1);
    lemma_p_string_inverts(e.key, r1);
    assert(r1[0] == ':');
    assert(r1.drop_first() =~= r2);
    lemma_p_value_inverts(e.value, rest);
    assert(EntryView { key: e.key, value: e.value } == e);
}

pub proof fn lemma_enc_entry_shape(e: EntryView)
    ensures
        enc_entry(e).len() >= 2,
        enc_entry(e)[0] == '"',
{
    assert(enc_entry(e)[0] == enc_string(e.key)[0]);
    assert(enc_string(e.key)[0] == '"');
}

pub proof fn lemma_p_entry_items_inverts(es: Seq<EntryView>, rest: Seq<char>)
    requires
        es.len() >= 1,
        entries_ok(es),
    ensures
        p_entry_items(enc_entry_items(es) + seq!['}'] + rest) == Some((es, rest)),
    decreases es.len(),
{
    let s = enc_entry_items(es) + seq!['}'] + rest;
    if es.len() == 1 {
        let r = seq!['}'] + rest;
        assert(s =~= enc_entry(es[0]) + r);
        assert(r.len() == 0 || !is_digit(r[0]));
        lemma_p_entry_inverts(es[0], r);
        assert(r[0] == '}');
        assert(r.drop_first() =~= rest);
        assert(seq![es[0]] =~= es);
    } else {
        let tail = enc_entry_items(es.drop_first()) + seq!['}'] + rest;
        let r = seq![','] + tail;
        assert(s =~= enc_entry(es[0]) + r);
        assert(!is_digit(r[0]));
        lemma_p_entry_inverts(es[0], r);
        assert(r[0] == ',');
        lemma_enc_entry_shape(es[0]);
        assert(r.len() < s.len());
        assert(r.drop_first() =~= tail);
        assert(entries_ok(es.drop_first())) by {
            assert(forall|i: int|
                0 <= i < es.drop_first().len() ==> es.drop_first()[i] == es[i + 1]);
        }
        lemma_p_entry_items_inverts(es.drop_first(), rest);
        assert(seq![es[0]] + es.drop_first() =~= es);
    }
}

proof fn lemma_enc_task_items_push(ts: Seq<TaskView>, t: TaskView)
    requires
        ts.len() >= 1,
    ensures
        enc_task_items(ts.push(t)) == enc_task_items(ts) + seq![','] + enc_task(t),
    decreases ts.len(),
{
    let u = ts.push(t);
    assert(u[0] == ts[0]);
    if ts.len() == 1 {
        assert(u.drop_first() =~= seq![t]);
        assert(enc_task_items(seq![t]) == enc_task(t));
        assert(enc_task(ts[0]) + seq![','] + enc_task(t) =~= enc_task_items(ts) + seq![',']
            + enc_task(t));
    } else {
        assert(u.drop_first() =~= ts.drop_first().push(t));
        lemma_enc_task_items_push(ts.drop_first(), t);
        assert(enc_task(ts[0]) + seq![','] + (enc_task_items(ts.drop_first()) + seq![',']
            + enc_task(t)) =~= (enc_task(ts[0]) + seq![','] + enc_task_items(ts.drop_first()))
            + seq![','] + enc_task(t));
    }
}

proof fn lemma_enc_entry_items_push(es: Seq<EntryView>, e: EntryView)
    requires
        es.len() >= 1,
    ensures
        enc_entry_items(es.push(e)) == enc_entry_items(es) + seq![','] + enc_entry(e),
    decreases es.len(),
{
    let u = es.push(e);
    assert(u[0] == es[0]);
    if es.len() == 1 {
        assert(u.drop_first() =~= seq![e]);
        assert(enc_entry_items(seq![e]) == enc_entry(e));
        assert(enc_entry(es[0]) + seq![','] + enc_entry(e) =~= enc_entry_items(es) + seq![',']
            + enc_entry(e));
    } else {
        assert(u.drop_first() =~= es.drop_first().push(e));
        lemma_enc_entry_items_push(es.drop_first(), e);
        assert(enc_entry(es[0]) + seq![','] + (enc_entry_items(es.drop_first()) + seq![',']
            + enc_entry(e)) =~= (enc_entry(es[0]) + seq![','] + enc_entry_items(es.drop_first()))
            + seq![','] + enc_entry(e));
    }
}

/// Appends one task object.
fn encode_task(t: &Task, out: &mut Vec<char>)
    ensures
        final(out)@ == old(out)@ + enc_task(t@),
{
    push_str_chars("{\"title\":", out);
    out.push('"');
    push_escaped(t.title.as_str(), out);
    out.push('"');
    push_str_chars(",\"completed\":", out);
    if t.completed {
        push_str_chars("true", out);
    } else {
        push_str_chars("false", out);
    }
    out.push('}');
    proof {
        assert(out@ =~= old(out)@ + enc_task(t@));
    }
}

/// Appends a task array.
fn encode_tasks(ts: &Vec<Task>, out: &mut Vec<char>)
    ensures
        final(out)@ == old(out)@ + enc_task_list(ts.deep_view()),
{
    let ghost dv = ts.deep_view();
    out.push('[');
    let n = ts.len();
    let mut i: usize = 0;
    while i < n
        invariant
            n == ts.len(),
            dv == ts.deep_view(),
            i <= n,
            i == 0 ==> out@ == old(out)@ + seq!['['],
            i > 0 ==> out@ == old(out)@ + seq!['['] + enc_task_items(dv.take(i as int)),
        decreases n - i,
    {
        proof {
            assert(dv.take(i as int).push(dv[i as int]) =~= dv.take(i + 1 as int));
        }
        if i > 0 {
            out.push(',');
            encode_task(&ts[i], out);
            proof {
                lemma_enc_task_items_push(dv.take(i as int), dv[i as int]);
                assert(out@ =~= old(out)@ + seq!['['] + enc_task_items(dv.take(i + 1 as int)));
            }
        } else {
            encode_task(&ts[i], out);
            proof {
                assert(dv.take(1) =~= seq![dv[0]]);
                assert(enc_task_items(seq![dv[0]]) == enc_task(dv[0]));
                assert(out@ =~= old(out)@ + seq!['['] + enc_task_items(dv.take(1)));
            }
        }
        i += 1;
    }
    out.push(']');
    proof {
        assert(dv.take(n as int) =~= dv);
        if n == 0 {
            assert(enc_task_items(dv) =~= Seq::<char>::empty());
        }
        assert(out@ =~= old(out)@ + enc_task_list(dv));
    }
}

/// Appends one value.
fn encode_value(v: &Value, out: &mut Vec<char>)
    ensures
        final(out)@ == old(out)@ + enc_value(v@),
{
    match v {
        Value::Str(s) => {
            out.push('"');
            push_escaped(s.as_str(), out);
            out.push('"');
            proof {
                assert(out@ =~= old(out)@ + enc_string(s@));
            }
        },
        Value::Bool(b) => {
            if *b {
                push_str_chars("true", out);
            } else {
                push_str_chars("false", out);
            }
        },
        Value::Int(i) => {
            push_dec_i64(*i, out);
        },
        Value::Tasks(ts) => {
            encode_tasks(ts, out);
        },
    }
}

/// Appends one entry: its quoted key, a colon, its value.
fn encode_entry(e: &Entry, out: &mut Vec<char>)
    ensures
        final(out)@ == old(out)@ + enc_entry(e@),
{
    out.push('"');
    push_escaped(e.key.as_str(), out);
    out.push('"');
    out.push(':');
    encode_value(&e.value, out);
    proof {
        assert(out@ =~= old(out)@ + enc_entry(e@));
    }
}

/// The whole document in its canonical written form.
pub fn encode_store(store: &Store) -> (r: String)
    ensures
        r@ == enc_doc(store.entries_view()),
{
    let entries = store.raw_entries();
    let ghost dv = entries.deep_view();
    let mut out: Vec<char> = Vec::new();
    out.push('{');
    let n = entries.len();
    let mut i: usize = 0;
    while i < n
        invariant
            n == entries.len(),
            dv == entries.deep_view(),
            i <= n,
            i == 0 ==> out@ == seq!['{'],
            i > 0 ==> out@ == seq!['{'] + enc_entry_items(dv.take(i as int)),
        decreases n - i,
    {
        proof {
            assert(dv.take(i as int).push(dv[i as int]) =~= dv.take(i + 1 as int));
        }
        if i > 0 {
            out.push(',');
            encode_entry(&entries[i], &mut out);
            proof {
                lemma_enc_entry_items_push(dv.take(i as int), dv[i as int]);
                assert(out@ =~= seq!['{'] + enc_entry_items(dv.take(i + 1 as int)));
            }
        } else {
            encode_entry(&entries[i], &mut out);
            proof {
                assert(dv.take(1) =~= seq![dv[0]]);
                assert(enc_entry_items(seq![dv[0]]) == enc_entry(dv[0]));
                assert(out@ =~= seq!['{'] + enc_entry_items(dv.take(1)));
            }
        }
        i += 1;
    }
    out.push('}');
    proof {
        assert(dv.take(n as int) =~= dv);
        if n == 0 {
            assert(enc_entry_items(dv) =~= Seq::<char>::empty());
        }
        assert(out@ =~= enc_doc(dv));
    }
    chars_to_string(&out)
}

/// A parse result with `pre` put in front of the parsed string.
pub open spec fn prepend_str(pre: Seq<char>, r: Option<(Seq<char>, Seq<char>)>) -> Option<
    (Seq<char>, Seq<char>),
> {
    match r {
        Some(p) => Some((pre + p.0, p.1)),
        None => None,
    }
}

/// A parse result with `pre` put in front of the parsed tasks.
pub open spec fn prepend_tasks(pre: Seq<TaskView>, r: Option<(Seq<TaskView>, Seq<char>)>) -> Option<
    (Seq<TaskView>, Seq<char>),
> {
    match r {
        Some(p) => Some((pre + p.0, p.1)),
        None => None,
    }
}

/// A parse result with `pre` put in front of the parsed entries.
pub open spec fn prepend_entries(
    pre: Seq<EntryView>,
    r: Option<(Seq<EntryView>, Seq<char>)>,
) -> Option<(Seq<EntryView>, Seq<char>)> {
    match r {
        Some(p) => Some((pre + p.0, p.1)),
        None => None,
    }
}

/// Reads the exact characters of `lit` at position `i`.
fn parse_lit(v: &Vec<char>, i: usize, lit: &str) -> (r: Option<usize>)
    requires
        i <= v.len(),
    ensures
        match r {
            Some(j) => {
                &&& i <= j <= v.len()
                &&& j - i == lit@.len()
                &&& p_lit(v@.skip(i as int), lit@) == Some(v@.skip(j as int))
            },
            None => p_lit(v@.skip(i as int), lit@) is None,
        },
{
    let m = lit.unicode_len();
    if v.len() - i < m {
        proof {
            assert(v@.skip(i as int).len() < lit@.len());
        }
        return None;
    }
    let mut k: usize = 0;
    while k < m
        invariant
            i + m <= v.len(),
            m == lit@.len(),
            k <= m,
            forall|x: int| 0 <= x < k ==> v@[i + x] == lit@[x],
        decreases m - k,
    {
        if v[i + k] != lit.get_char(k) {
            proof {
                let s = v@.skip(i as int);
                assert(s.take(m as int)[k as int] == v@[i + k]);
                assert(!starts_with(s, lit@)) by {
                    if starts_with(s, lit@) {
                        assert(s.take(m as int)[k as int] == lit@[k as int]);
                    }
                }
            }
            return None;
        }
        k += 1;
    }
    proof {
        let s = v@.skip(i as int);
        assert(s.take(m as int) =~= lit@);
        assert(s.skip(m as int) =~= v@.skip((i + m) as int));
    }
    Some(i + m)
}

/// Reads a quoted string at position `i`.
fn parse_string(v: &Vec<char>, i: usize) -> (r: Option<(String, usize)>)
    requires
        i <= v.len(),
    ensures
        match r {
            Some(p) => i < p.1 <= v.len() && p_string(v@.skip(i as int)) == Some(
                (p.0@, v@.skip(p.1 as int)),
            ),
            None => p_string(v@.skip(i as int)) is None,
        },
{
    if i == v.len() {
        return None;
    }
    if v[i] != '"' {
        proof {
            assert(v@.skip(i as int)[0] == v@[i as int]);
        }
        return None;
    }
    proof {
        assert(v@.skip(i as int)[0] == v@[i as int]);
        assert(v@.skip(i as int).drop_first() =~= v@.skip((i + 1) as int));
    }
    let mut cur: usize = i + 1;
    let mut buf: Vec<char> = Vec::new();
    loop
        invariant
            i + 1 <= cur <= v.len(),
            i < v.len(),
            v@[i as int] == '"',
            p_string(v@.skip(i as int)) == p_str_body(v@.skip((i + 1) as int)),
            p_str_body(v@.skip((i + 1) as int)) == prepend_str(
                buf@,
                p_str_body(v@.skip(cur as int)),
            ),
        decreases v.len() - cur,
    {
        if cur == v.len() {
            proof {
                assert(v@.skip(cur as int).len() == 0);
            }
            return None;
        }
        let c = v[cur];
        proof {
            assert(v@.skip(cur as int)[0] == c);
            assert(v@.skip(cur as int).drop_first() =~= v@.skip((cur + 1) as int));
        }
        if c == '"' {
            proof {
                assert(buf@ + Seq::<char>::empty() =~= buf@);
            }
            let out = chars_to_string(&buf);
            return Some((out, cur + 1));
        } else if c == '\\' {
            if cur + 1 == v.len() {
                proof {
                    assert(v@.skip(cur as int).len() < 2);
                }
                return None;
            }
            let e = v[cur + 1];
            proof {
                assert(v@.skip(cur as int)[1] == e);
                assert(v@.skip(cur as int).skip(2) =~= v@.skip((cur + 2) as int));
            }
            let u: char;
            if e == '"' {
                u = '"';
            } else if e == '\\' {
                u = '\\';
            } else if e == 'n' {
                u = '\n';
            } else if e == 'r' {
                u = '\r';
            } else if e == 't' {
                u = '\t';
            } else {
                proof {
                    assert(unesc_char(e) is None);
                }
                return None;
            }
            proof {
                assert(unesc_char(e) == Some(u));
            }
            let ghost prevbuf = buf@;
            buf.push(u);
            proof {
                match p_str_body(v@.skip((cur + 2) as int)) {
                    Some(p) => {
                        assert(prevbuf + (seq![u] + p.0) =~= buf@ + p.0);
                    },
                    None => {},
                }
            }
            cur = cur + 2;
        } else {
            let ghost prevbuf = buf@;
            buf.push(c);
            proof {
                match p_str_body(v@.skip((cur + 1) as int)) {
                    Some(p) => {
                        assert(prevbuf + (seq![c] + p.0) =~= buf@ + p.0);
                    },
                    None => {},
                }
            }
            cur = cur + 1;
        }
    }
}

/// Reads a boolean literal at position `i`.
fn parse_bool(v: &Vec<char>, i: usize) -> (r: Option<(bool, usize)>)
    requires
        i <= v.len(),
    ensures
        match r {
            Some(p) => i < p.1 <= v.len() && p_bool(v@.skip(i as int)) == Some(
                (p.0, v@.skip(p.1 as int)),
            ),
            None => p_bool(v@.skip(i as int)) is None,
        },
{
    proof {
        reveal_strlit("true");
        reveal_strlit("false");
    }
    match parse_lit(v, i, "true") {
        Some(j) => Some((true, j)),
        None => match parse_lit(v, i, "false") {
            Some(j) => Some((false, j)),
            None => None,
        },
    }
}

/// Reads an integer at position `i`, rejecting one the stored integer type
/// cannot carry.
fn parse_int(v: &Vec<char>, i: usize) -> (r: Option<(i64, usize)>)
    requires
        i <= v.len(),
    ensures
        match r {
            Some(p) => i < p.1 <= v.len() && p_int(v@.skip(i as int)) == Some(
                (p.0 as int, v@.skip(p.1 as int)),
            ),
            None => p_int(v@.skip(i as int)) is None,
        },
{
    if i < v.len() && v[i] == '-' {
        proof {
            assert(v@.skip(i as int)[0] == v@[i as int]);
            assert(v@.skip(i as int).drop_first() =~= v@.skip((i + 1) as int));
        }
        let (j, m) = scan_digits(v, i + 1, 9223372036854775808u64);
        proof {
            assert(v@.skip((i + 1) as int).take((j - i - 1) as int) =~= v@.subrange(
                (i + 1) as int,
                j as int,
            ));
            assert(v@.skip((i + 1) as int).skip((j - i - 1) as int) =~= v@.skip(j as int));
        }
        if j == i + 1 {
            return None;
        }
        match m {
            Some(mag) => {
                let x: i64 = if mag == 9223372036854775808u64 {
                    i64::MIN
                } else {
                    -(mag as i64)
                };
                proof {
                    assert(x as int == -(mag as int));
                }
                Some((x, j))
            },
            None => None,
        }
    } else {
        proof {
            if i < v.len() {
                assert(v@.skip(i as int)[0] == v@[i as int]);
            }
        }
        let (j, m) = scan_digits(v, i, i64::MAX as u64);
        proof {
            assert(v@.skip(i as int).take((j - i) as int) =~= v@.subrange(i as int, j as int));
            assert(v@.skip(i as int).skip((j - i) as int) =~= v@.skip(j as int));
        }
        if j == i {
            return None;
        }
        match m {
            Some(mag) => Some((mag as i64, j)),
            None => None,
        }
    }
}

/// Reads one task object at position `i`.
fn parse_task(v: &Vec<char>, i: usize) -> (r: Option<(Task, usize)>)
    requires
        i <= v.len(),
    ensures
        match r {
            Some(p) => i < p.1 <= v.len() && p_task(v@.skip(i as int)) == Some(
                (p.0@, v@.skip(p.1 as int)),
            ),
            None => p_task(v@.skip(i as int)) is None,
        },
{
    match parse_lit(v, i, "{\"title\":") {
        None => None,
        Some(j1) => match parse_string(v, j1) {
            None => None,
            Some((title, j2)) => match parse_lit(v, j2, ",\"completed\":") {
                None => None,
                Some(j3) => match parse_bool(v, j3) {
                    None => None,
                    Some((b, j4)) => {
                        if j4 < v.len() && v[j4] == '}' {
                            proof {
                                assert(v@.skip(j4 as int)[0] == v@[j4 as int]);
                                assert(v@.skip(j4 as int).drop_first() =~= v@.skip(
                                    (j4 + 1) as int,
                                ));
                            }
                            Some((Task { title, completed: b }, j4 + 1))
                        } else {
                            proof {
                                if j4 < v.len() {
                                    assert(v@.skip(j4 as int)[0] == v@[j4 as int]);
                                }
                            }
                            None
                        }
                    },
                },
            },
        },
    }
}

/// Reads a task array at position `i`.
fn parse_task_list(v: &Vec<char>, i: usize) -> (r: Option<(Vec<Task>, usize)>)
    requires
        i <= v.len(),
    ensures
        match r {
            Some(p) => i < p.1 <= v.len() && p_task_list(v@.skip(i as int)) == Some(
                (p.0.deep_view(), v@.skip(p.1 as int)),
            ),
            None => p_task_list(v@.skip(i as int)) is None,
        },
{
    if i == v.len() {
        return None;
    }
    if v[i] != '[' {
        proof {
            assert(v@.skip(i as int)[0] == v@[i as int]);
        }
        return None;
    }
    proof {
        assert(v@.skip(i as int)[0] == v@[i as int]);
    }
    if i + 1 < v.len() && v[i + 1] == ']' {
        proof {
            assert(v@.skip(i as int)[1] == v@[(i + 1) as int]);
            assert(v@.skip(i as int).skip(2) =~= v@.skip((i + 2) as int));
        }
        let out: Vec<Task> = Vec::new();
        proof {
            assert(out.deep_view() =~= Seq::<TaskView>::empty());
        }
        return Some((out, i + 2));
    }
    proof {
        if v@.skip(i as int).len() >= 2 {
            assert(v@.skip(i as int)[1] == v@[(i + 1) as int]);
        }
        assert(v@.skip(i as int).drop_first() =~= v@.skip((i + 1) as int));
    }
    let mut cur: usize = i + 1;
    let mut acc: Vec<Task> = Vec::new();
    loop
        invariant
            i + 1 <= cur <= v.len(),
            p_task_list(v@.skip(i as int)) == p_task_items(v@.skip((i + 1) as int)),
            p_task_items(v@.skip((i + 1) as int)) == prepend_tasks(
                acc.deep_view(),
                p_task_items(v@.skip(cur as int)),
            ),
        decreases v.len() - cur,
    {
        match parse_task(v, cur) {
            None => {
                return None;
            },
            Some((t, j)) => {
                if j == v.len() {
                    proof {
                        assert(v@.skip(j as int).len() == 0);
                    }
                    return None;
                }
                let c = v[j];
                proof {
                    assert(v@.skip(j as int)[0] == c);
                    assert(v@.skip(j as int).drop_first() =~= v@.skip((j + 1) as int));
                }
                if c == ',' {
                    proof {
                        assert(v@.skip(j as int).len() < v@.skip(cur as int).len());
                    }
                    let ghost prevacc = acc.deep_view();
                    let ghost tv = t@;
                    acc.push(t);
                    proof {
                        assert(acc.deep_view() =~= prevacc.push(tv));
                        match p_task_items(v@.skip((j + 1) as int)) {
                            Some(p) => {
                                assert(prevacc + (seq![tv] + p.0) =~= acc.deep_view() + p.0);
                            },
                            None => {},
                        }
                    }
                    cur = j + 1;
                } else if c == ']' {
                    let ghost prevacc = acc.deep_view();
                    let ghost tv = t@;
                    acc.push(t);
                    proof {
                        assert(acc.deep_view() =~= prevacc.push(tv));
                        assert(p_task_items(v@.skip(cur as int)) == Some(
                            (seq![tv], v@.skip((j + 1) as int)),
                        ));
                        assert(prevacc + seq![tv] =~= acc.deep_view());
                    }
                    return Some((acc, j + 1));
                } else {
                    return None;
                }
            },
        }
    }
}

/// Reads one value at position `i`.
fn parse_value(v: &Vec<char>, i: usize) -> (r: Option<(Value, usize)>)
    requires
        i <= v.len(),
    ensures
        match r {
            Some(p) => i < p.1 <= v.len() && p_value(v@.skip(i as int)) == Some(
                (p.0@, v@.skip(p.1 as int)),
            ),
            None => p_value(v@.skip(i as int)) is None,
        },
{
    if i == v.len() {
        return None;
    }
    let c = v[i];
    proof {
        assert(v@.skip(i as int)[0] == c);
        assert(v@.skip(i as int).drop_first() =~= v@.skip((i + 1) as int));
    }
    if c == '"' {
        match parse_string(v, i) {
            Some((s, j)) => Some((Value::Str(s), j)),
            None => None,
        }
    } else if c == 't' || c == 'f' {
        match parse_bool(v, i) {
            Some((b, j)) => Some((Value::Bool(b), j)),
            None => None,
        }
    } else if c == '[' {
        match parse_task_list(v, i) {
            Some((ts, j)) => Some((Value::Tasks(ts), j)),
            None => None,
        }
    } else {
        match parse_int(v, i) {
            Some((x, j)) => Some((Value::Int(x), j)),
            None => None,
        }
    }
}

/// Reads one entry at position `i`.
fn parse_entry(v: &Vec<char>, i: usize) -> (r: Option<(Entry, usize)>)
    requires
        i <= v.len(),
    ensures
        match r {
            Some(p) => i < p.1 <= v.len() && p_entry(v@.skip(i as int)) == Some(
                (p.0@, v@.skip(p.1 as int)),
            ),
            None => p_entry(v@.skip(i as int)) is None,
        },
{
    match parse_string(v, i) {
        None => None,
        Some((key, j1)) => {
            if j1 == v.len() {
                return None;
            }
            let c = v[j1];
            proof {
                assert(v@.skip(j1 as int)[0] == c);
                assert(v@.skip(j1 as int).drop_first() =~= v@.skip((j1 + 1) as int));
            }
            if c != ':' {
                return None;
            }
            match parse_value(v, j1 + 1) {
                None => None,
                Some((val, j2)) => Some((Entry { key, value: val }, j2)),
            }
        },
    }
}

/// Reads a whole document.
fn parse_doc(v: &Vec<char>) -> (r: Option<Vec<Entry>>)
    ensures
        match r {
            Some(es) => p_doc(v@) == Some(es.deep_view()),
            None => p_doc(v@) is None,
        },
{
    let n = v.len();
    if n >= 2 && v[0] == '{' {
        if v[1] == '}' {
            if n == 2 {
                let out: Vec<Entry> = Vec::new();
                proof {
                    assert(out.deep_view() =~= Seq::<EntryView>::empty());
                }
                return Some(out);
            } else {
                return None;
            }
        }
    }
    if n == 0 {
        return None;
    }
    if v[0] != '{' {
        return None;
    }
    proof {
        assert(v@.drop_first() =~= v@.skip(1));
    }
    let mut cur: usize = 1;
    let mut acc: Vec<Entry> = Vec::new();
    loop
        invariant
            1 <= cur <= n,
            n == v.len(),
            v@[0] == '{',
            n >= 1,
            !(v@.len() >= 2 && v@[0] == '{' && v@[1] == '}'),
            p_doc(v@) == (match p_entry_items(v@.skip(1)) {
                Some(p) => if p.1.len() == 0 {
                    Some(p.0)
                } else {
                    None
                },
                None => None,
            }),
            p_entry_items(v@.skip(1)) == prepend_entries(
                acc.deep_view(),
                p_entry_items(v@.skip(cur as int)),
            ),
        decreases n - cur,
    {
        match parse_entry(v, cur) {
            None => {
                return None;
            },
            Some((e, j)) => {
                if j == n {
                    proof {
                        assert(v@.skip(j as int).len() == 0);
                    }
                    return None;
                }
                let c = v[j];
                proof {
                    assert(v@.skip(j as int)[0] == c);
                    assert(v@.skip(j as int).drop_first() =~= v@.skip((j + 1) as int));
                }
                if c == ',' {
                    proof {
                        assert(v@.skip(j as int).len() < v@.skip(cur as int).len());
                    }
                    let ghost prevacc = acc.deep_view();
                    let ghost ev = e@;
                    acc.push(e);
                    proof {
                        assert(acc.deep_view() =~= prevacc.push(ev));
                        match p_entry_items(v@.skip((j + 1) as int)) {
                            Some(p) => {
                                assert(prevacc + (seq![ev] + p.0) =~= acc.deep_view() + p.0);
                            },
                            None => {},
                        }
                    }
                    cur = j + 1;
                } else if c == '}' {
                    let ghost prevacc = acc.deep_view();
                    let ghost ev = e@;
                    acc.push(e);
                    proof {
                        assert(acc.deep_view() =~= prevacc.push(ev));
                        assert(p_entry_items(v@.skip(cur as int)) == Some(
                            (seq![ev], v@.skip((j + 1) as int)),
                        ));
                        assert(prevacc + seq![ev] =~= acc.deep_view());
                    }
                    if j + 1 == n {
                        proof {
                            assert(v@.skip((j + 1) as int).len() == 0);
                        }
                        return Some(acc);
                    } else {
                        return None;
                    }
                } else {
                    return None;
                }
            },
        }
    }
}

/// Whether no key of the parsed entries repeats.
fn check_unique(entries: &Vec<Entry>) -> (r: bool)
    ensures
        r == unique_keys(entries.deep_view()),
{
    let n = entries.len();
    let mut i: usize = 0;
    while i < n
        invariant
            n == entries.len(),
            i <= n,
            forall|x: int, y: int|
                0 <= x < y < i ==> entries.deep_view()[x].key != entries.deep_view()[y].key,
        decreases n - i,
    {
        let mut j: usize = 0;
        while j < i
            invariant
                n == entries.len(),
                i < n,
                j <= i,
                forall|x: int, y: int|
                    0 <= x < y < i ==> entries.deep_view()[x].key != entries.deep_view()[y].key,
                forall|x: int|
                    0 <= x < j ==> entries.deep_view()[x].key != entries.deep_view()[i as int].key,
            decreases i - j,
        {
            if crate::store::str_eq(entries[j].key.as_str(), entries[i].key.as_str()) {
                proof {
                    assert(entries.deep_view()[j as int].key == entries.deep_view()[
                        i as int
                    ].key);
                }
                return false;
            }
            j += 1;
        }
        i += 1;
    }
    true
}

/// Reads a document back into a store. Anything malformed — bad syntax, an
/// unknown escape, an integer out of range, a repeated key — reads as no
/// document at all.
pub fn decode_store(s: &str) -> (r: Option<Store>)
    ensures
        match r {
            Some(st) => st.wf() && spec_decode(s@) == Some(st.entries_view()),
            None => spec_decode(s@) is None,
        },
{
    let v = str_to_chars(s);
    match parse_doc(&v) {
        None => None,
        Some(entries) => {
            if check_unique(&entries) {
                Some(Store::from_entries(entries))
            } else {
                None
            }
        },
    }
}

/// Decoding inverts encoding: a document whose keys do not repeat and whose
/// integers fit the stored integer type reads back as exactly its entries.
pub proof fn lemma_doc_round_trip(entries: Seq<EntryView>)
    requires
        unique_keys(entries),
        entries_ok(entries),
    ensures
        spec_decode(enc_doc(entries)) == Some(entries),
{
    let s = enc_doc(entries);
    assert(s[0] == '{');
    if entries.len() == 0 {
        assert(enc_entry_items(entries) =~= Seq::<char>::empty());
        assert(s =~= seq!['{', '}']);
        assert(s.len() == 2 && s[1] == '}');
    } else {
        lemma_enc_entry_shape(entries[0]);
        assert(enc_entry_items(entries)[0] == enc_entry(entries[0])[0]);
        assert(s[1] == enc_entry_items(entries)[0]);
        assert(s[1] != '}');
        assert(s.drop_first() =~= enc_entry_items(entries) + seq!['}'] + Seq::<char>::empty());
        lemma_p_entry_items_inverts(entries, Seq::empty());
    }
}

/// Writing a store out and reading the text back yields the same document
/// model: the round trip over the canonical encoding loses nothing.
pub proof fn lemma_store_round_trip(st: Store)
    requires
        st.wf(),
    ensures
        spec_decode(enc_doc(st.entries_view())) == Some(st.entries_view()),
{
    st.lemma_entries_ok();
    lemma_doc_round_trip(st.entries_view());
}

} // verus!
