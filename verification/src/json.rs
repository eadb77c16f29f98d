//! The persisted file format: a JSON array of task records, written and
//! parsed by the library itself, with the round-trip between the two
//! proved.

use vstd::prelude::*;

use crate::num::{
    dec_int, dec_nat, is_digit, lemma_dec_nat_digits, lemma_parse_i64_round_trip,
    lemma_parse_u64_round_trip, spec_parse_i64, spec_parse_u64,
};
use crate::task::{Task, TaskView};
use crate::text::{append_chars, append_str, lemma_peel, lemma_slice_eq, lemma_sub_slice, lemma_window_index};
use vstd::string::StrSliceExecFns;

verus! {

/// How one character is written inside a JSON string: quotes and
/// backslashes get a backslash in front, everything else stands as it is.
pub open spec fn esc_char(c: char) -> Seq<char> {
    if c == '"' || c == '\\' {
        seq!['\\', c]
    } else {
        seq![c]
    }
}

/// The escaped body of a JSON string.
pub open spec fn esc(s: Seq<char>) -> Seq<char>
    decreases s.len(),
{
    if s.len() == 0 {
        Seq::empty()
    } else {
        esc(s.drop_last()) + esc_char(s.last())
    }
}

/// A JSON string: the escaped body between double quotes.
pub open spec fn json_string(s: Seq<char>) -> Seq<char> {
    seq!['"'] + esc(s) + seq!['"']
}

/// An optional string: `null` when absent.
pub open spec fn json_opt_string(d: Option<Seq<char>>) -> Seq<char> {
    match d {
        Some(s) => json_string(s),
        None => "null"@,
    }
}

/// An optional number: `null` when absent.
pub open spec fn json_opt_i64(d: Option<i64>) -> Seq<char> {
    match d {
        Some(n) => dec_int(n as int),
        None => "null"@,
    }
}

/// The comma-separated tag strings, without the surrounding brackets.
pub open spec fn json_tags(tags: Seq<Seq<char>>) -> Seq<char>
    decreases tags.len(),
{
    if tags.len() == 0 {
        Seq::empty()
    } else if tags.len() == 1 {
        json_string(tags[0])
    } else {
        json_tags(tags.drop_last()) + seq![','] + json_string(tags.last())
    }
}

/// One task record: an object with every field, in a fixed order.
pub open spec fn json_task(t: TaskView) -> Seq<char> {
    "{\"id\":"@ + dec_nat(t.id as nat) + ",\"title\":"@ + json_string(t.title)
        + ",\"description\":"@ + json_opt_string(t.description) + ",\"tags\":["@ + json_tags(
        t.tags,
    ) + "],\"created_at\":"@ + dec_int(t.created_at as int) + ",\"due_date\":"@ + json_opt_i64(
        t.due_date,
    ) + ",\"status\":"@ + json_string(t.status) + "}"@
}

/// The comma-separated task records, without the surrounding brackets.
pub open spec fn json_task_list(ts: Seq<TaskView>) -> Seq<char>
    decreases ts.len(),
{
    if ts.len() == 0 {
        Seq::empty()
    } else if ts.len() == 1 {
        json_task(ts[0])
    } else {
        json_task_list(ts.drop_last()) + seq![','] + json_task(ts.last())
    }
}

/// The whole persisted document: the task records in one array.
pub open spec fn json_tasks(ts: Seq<TaskView>) -> Seq<char> {
    seq!['['] + json_task_list(ts) + seq![']']
}

/// Reads the body of a JSON string from `pos` up to the closing quote,
/// undoing the escapes; `acc` holds what was read so far.
pub open spec fn spec_parse_string_chars(v: Seq<char>, pos: int, acc: Seq<char>) -> Option<
    (Seq<char>, int),
>
    decreases v.len() - pos,
    when 0 <= pos <= v.len()
{
    if pos >= v.len() {
        None
    } else if v[pos] == '"' {
        Some((acc, pos + 1))
    } else if v[pos] == '\\' {
        if pos + 1 < v.len() {
            spec_parse_string_chars(v, pos + 2, acc.push(v[pos + 1]))
        } else {
            None
        }
    } else {
        spec_parse_string_chars(v, pos + 1, acc.push(v[pos]))
    }
}

/// Reads a complete JSON string at `pos`.
pub open spec fn spec_parse_string(v: Seq<char>, pos: int) -> Option<(Seq<char>, int)> {
    if 0 <= pos < v.len() && v[pos] == '"' {
        spec_parse_string_chars(v, pos + 1, Seq::empty())
    } else {
        None
    }
}

/// Requires the exact characters of `lit` at `pos` and steps past them.
pub open spec fn spec_expect(v: Seq<char>, pos: int, lit: Seq<char>) -> Option<int> {
    if 0 <= pos && pos + lit.len() <= v.len() && v.subrange(pos, pos + lit.len()) == lit {
        Some(pos + lit.len())
    } else {
        None
    }
}

/// `null` or a JSON string.
pub open spec fn spec_parse_opt_string(v: Seq<char>, pos: int) -> Option<(Option<Seq<char>>, int)> {
    match spec_expect(v, pos, "null"@) {
        Some(e) => Some((None, e)),
        None => match spec_parse_string(v, pos) {
            Some((s, e)) => Some((Some(s), e)),
            None => None,
        },
    }
}

/// `null` or a signed number.
pub open spec fn spec_parse_opt_i64(v: Seq<char>, pos: int) -> Option<(Option<i64>, int)> {
    match spec_expect(v, pos, "null"@) {
        Some(e) => Some((None, e)),
        None => match spec_parse_i64(v, pos) {
            Some((n, e)) => Some((Some(n), e)),
            None => None,
        },
    }
}

/// Reads `,`-separated tag strings after the first one, stopping (without
/// consuming) at the first character that is not a comma.
pub open spec fn spec_parse_tags_rest(v: Seq<char>, pos: int, acc: Seq<Seq<char>>) -> Option<
    (Seq<Seq<char>>, int),
>
    decreases v.len() - pos,
    when 0 <= pos <= v.len()
{
    if pos < v.len() && v[pos] == ',' {
        match spec_parse_string(v, pos + 1) {
            Some((s, e)) => if pos < e <= v.len() {
                spec_parse_tags_rest(v, e, acc.push(s))
            } else {
                None
            },
            None => None,
        }
    } else {
        Some((acc, pos))
    }
}

/// Reads a comma-separated list of tag strings, stopping (without
/// consuming) at the closing bracket.
pub open spec fn spec_parse_tags(v: Seq<char>, pos: int) -> Option<(Seq<Seq<char>>, int)> {
    if 0 <= pos < v.len() && v[pos] == ']' {
        Some((Seq::empty(), pos))
    } else {
        match spec_parse_string(v, pos) {
            Some((s, e)) => if pos < e <= v.len() {
                spec_parse_tags_rest(v, e, seq![s])
            } else {
                None
            },
            None => None,
        }
    }
}

/// Reads one task record at `pos`: every field in the fixed order the
/// encoder writes.
pub open spec fn spec_parse_task(v: Seq<char>, pos: int) -> Option<(TaskView, int)> {
    match spec_expect(v, pos, "{\"id\":"@) {
        None => None,
        Some(p1) => match spec_parse_u64(v, p1) {
            None => None,
            Some((id, p2)) => match spec_expect(v, p2, ",\"title\":"@) {
                None => None,
                Some(p3) => match spec_parse_string(v, p3) {
                    None => None,
                    Some((title, p4)) => match spec_expect(v, p4, ",\"description\":"@) {
                        None => None,
                        Some(p5) => match spec_parse_opt_string(v, p5) {
                            None => None,
                            Some((description, p6)) => match spec_expect(v, p6, ",\"tags\":["@) {
                                None => None,
                                Some(p7) => match spec_parse_tags(v, p7) {
                                    None => None,
                                    Some((tags, p8)) => match spec_expect(
                                        v,
                                        p8,
                                        "],\"created_at\":"@,
                                    ) {
                                        None => None,
                                        Some(p9) => match spec_parse_i64(v, p9) {
                                            None => None,
                                            Some((created_at, p10)) => match spec_expect(
                                                v,
                                                p10,
                                                ",\"due_date\":"@,
                                            ) {
                                                None => None,
                                                Some(p11) => match spec_parse_opt_i64(v, p11) {
                                                    None => None,
                                                    Some((due_date, p12)) => match spec_expect(
                                                        v,
                                                        p12,
                                                        ",\"status\":"@,
                                                    ) {
                                                        None => None,
                                                        Some(p13) => match spec_parse_string(
                                                            v,
                                                            p13,
                                                        ) {
                                                            None => None,
                                                            Some((status, p14)) => match
                                                                spec_expect(v, p14, "}"@) {
                                                                None => None,
                                                                Some(p15) => Some(
                                                                    (
                                                                        TaskView {
                                                                            id,
                                                                            title,
                                                                            description,
                                                                            tags,
                                                                            created_at,
                                                                            due_date,
                                                                            status,
                                                                        },
                                                                        p15,
                                                                    ),
                                                                ),
                                                            },
                                                        },
                                                    },
                                                },
                                            },
                                        },
                                    },
                                },
                            },
                        },
                    },
                },
            },
        },
    }
}

/// Reads `,`-separated task records after the first one, stopping
/// (without consuming) at the first character that is not a comma.
pub open spec fn spec_parse_tasks_rest(v: Seq<char>, pos: int, acc: Seq<TaskView>) -> Option<
    (Seq<TaskView>, int),
>
    decreases v.len() - pos,
    when 0 <= pos <= v.len()
{
    if pos < v.len() && v[pos] == ',' {
        match spec_parse_task(v, pos + 1) {
            Some((t, e)) => if pos < e <= v.len() {
                spec_parse_tasks_rest(v, e, acc.push(t))
            } else {
                None
            },
            None => None,
        }
    } else {
        Some((acc, pos))
    }
}

/// Reads a whole persisted document: the array brackets around the
/// records, with nothing left over.
pub open spec fn spec_parse_doc(v: Seq<char>) -> Option<Seq<TaskView>> {
    match spec_expect(v, 0, "["@) {
        None => None,
        Some(p1) => if p1 < v.len() && v[p1] == ']' {
            if p1 + 1 == v.len() {
                Some(Seq::empty())
            } else {
                None
            }
        } else {
            match spec_parse_task(v, p1) {
                None => None,
                Some((t, p2)) => if p1 < p2 <= v.len() {
                    match spec_parse_tasks_rest(v, p2, seq![t]) {
                        None => None,
                        Some((ts, p3)) => if p3 + 1 == v.len() && p3 < v.len() && v[p3] == ']' {
                            Some(ts)
                        } else {
                            None
                        },
                    }
                } else {
                    None
                },
            }
        },
    }
}

/// Escaping works front-first as well: the first character's escape, then
/// the escaped rest.
pub proof fn lemma_esc_front(s: Seq<char>)
    requires
        s.len() > 0,
    ensures
        esc(s) == esc_char(s[0]) + esc(s.drop_first()),
    decreases s.len(),
{
    if s.len() == 1 {
        assert(s.drop_last() =~= Seq::<char>::empty());
        assert(s.drop_first() =~= Seq::<char>::empty());
        assert(esc(s) =~= esc_char(s[0]) + esc(s.drop_first()));
    } else {
        lemma_esc_front(s.drop_last());
        assert(s.drop_last()[0] == s[0]);
        assert(s.drop_last().drop_first() =~= s.drop_first().drop_last());
        assert(s.drop_first().last() == s.last());
        assert(esc(s.drop_first()) == esc(s.drop_first().drop_last()) + esc_char(s.last()));
        assert(esc(s) =~= esc_char(s[0]) + esc(s.drop_first()));
    }
}

/// Reading an escaped body followed by a closing quote yields exactly the
/// unescaped text and stops behind the quote.
pub proof fn lemma_parse_string_chars_rt(v: Seq<char>, pos: int, s: Seq<char>, acc: Seq<char>)
    requires
        0 <= pos,
        pos + esc(s).len() + 1 <= v.len(),
        v.subrange(pos, pos + esc(s).len()) == esc(s),
        v[pos + esc(s).len()] == '"',
    ensures
        spec_parse_string_chars(v, pos, acc) == Some((acc + s, pos + esc(s).len() + 1)),
    decreases s.len(),
{
    if s.len() == 0 {
        assert(esc(s).len() == 0);
        assert(v[pos] == '"');
        assert(acc + s =~= acc);
    } else {
        lemma_esc_front(s);
        let e0 = esc_char(s[0]);
        let rest = s.drop_first();
        let d = e0.len() as int;
        assert(esc(s) == e0 + esc(rest));
        assert(esc(s).subrange(d, esc(s).len() as int) =~= esc(rest));
        lemma_sub_slice(v, pos, esc(s), d, esc(rest));
        if s[0] == '"' || s[0] == '\\' {
            assert(esc(s)[0] == '\\');
            assert(esc(s)[1] == s[0]);
            lemma_window_index(v, pos, esc(s), 0);
            lemma_window_index(v, pos, esc(s), 1);
            assert(v[pos] == '\\');
            assert(v[pos + 1] == s[0]);
            lemma_parse_string_chars_rt(v, pos + 2, rest, acc.push(s[0]));
            assert(acc.push(s[0]) + rest =~= acc + s);
        } else {
            assert(esc(s)[0] == s[0]);
            lemma_window_index(v, pos, esc(s), 0);
            assert(v[pos] == s[0]);
            assert(v[pos] != '"' && v[pos] != '\\');
            lemma_parse_string_chars_rt(v, pos + 1, rest, acc.push(s[0]));
            assert(acc.push(s[0]) + rest =~= acc + s);
        }
    }
}

/// Reading right after a written JSON string yields the original text and
/// stops behind its closing quote.
pub proof fn lemma_parse_string_rt(v: Seq<char>, pos: int, s: Seq<char>)
    requires
        0 <= pos,
        pos + json_string(s).len() <= v.len(),
        v.subrange(pos, pos + json_string(s).len()) == json_string(s),
    ensures
        spec_parse_string(v, pos) == Some((s, pos + json_string(s).len())),
{
    let js = json_string(s);
    assert(js[0] == '"');
    lemma_window_index(v, pos, js, 0);
    assert(v[pos] == '"');
    assert(js.subrange(1, 1 + esc(s).len() as int) =~= esc(s));
    lemma_sub_slice(v, pos, js, 1, esc(s));
    lemma_window_index(v, pos, js, 1 + esc(s).len() as int);
    assert(js[1 + esc(s).len() as int] == '"');
    lemma_parse_string_chars_rt(v, pos + 1, s, Seq::empty());
    assert(Seq::empty() + s =~= s);
}

/// The tag list also reads front-first: the first tag, then the rest each
/// behind a comma.
pub open spec fn json_tags_rest(tags: Seq<Seq<char>>) -> Seq<char>
    decreases tags.len(),
{
    if tags.len() == 0 {
        Seq::empty()
    } else {
        seq![','] + json_string(tags[0]) + json_tags_rest(tags.drop_first())
    }
}

/// Appending one more tag appends its comma and text.
pub proof fn lemma_json_tags_rest_back(tags: Seq<Seq<char>>)
    requires
        tags.len() >= 1,
    ensures
        json_tags_rest(tags) == json_tags_rest(tags.drop_last()) + seq![','] + json_string(
            tags.last(),
        ),
    decreases tags.len(),
{
    if tags.len() == 1 {
        assert(tags.drop_last() =~= Seq::<Seq<char>>::empty());
        assert(tags.drop_first() =~= Seq::<Seq<char>>::empty());
        assert(tags.last() == tags[0]);
        assert(json_tags_rest(tags) =~= json_tags_rest(tags.drop_last()) + seq![',']
            + json_string(tags.last()));
    } else {
        let a = tags[0];
        let mid = tags.drop_first();
        lemma_json_tags_rest_back(mid);
        assert(tags.drop_last()[0] == a);
        assert(tags.drop_last().drop_first() =~= mid.drop_last());
        assert(mid.last() == tags.last());
        assert(json_tags_rest(tags) == seq![','] + json_string(a) + json_tags_rest(mid));
        assert(json_tags_rest(tags.drop_last()) == seq![','] + json_string(a) + json_tags_rest(
            tags.drop_last().drop_first(),
        ));
        assert(json_tags_rest(tags.drop_last().drop_first()) == json_tags_rest(mid.drop_last()));
        assert(json_tags_rest(tags) =~= json_tags_rest(tags.drop_last()) + seq![',']
            + json_string(tags.last()));
    }
}

/// The two readings of the tag list agree.
pub proof fn lemma_json_tags_front(tags: Seq<Seq<char>>)
    requires
        tags.len() >= 1,
    ensures
        json_tags(tags) == json_string(tags[0]) + json_tags_rest(tags.drop_first()),
    decreases tags.len(),
{
    if tags.len() == 1 {
        assert(tags.drop_first() =~= Seq::<Seq<char>>::empty());
        assert(json_tags(tags) =~= json_string(tags[0]) + json_tags_rest(tags.drop_first()));
    } else {
        lemma_json_tags_front(tags.drop_last());
        assert(tags.drop_last()[0] == tags[0]);
        assert(tags.drop_last().drop_first() =~= tags.drop_first().drop_last());
        assert(tags.drop_first().last() == tags.last());
        lemma_json_tags_rest_back(tags.drop_first());
        assert(json_tags(tags) =~= json_string(tags[0]) + json_tags_rest(tags.drop_first()));
    }
}

/// Reading tag continuations over written `,tag` runs collects them all
/// and stops at the terminator, which is not a comma.
pub proof fn lemma_parse_tags_rest_rt(
    v: Seq<char>,
    pos: int,
    rest: Seq<Seq<char>>,
    acc: Seq<Seq<char>>,
)
    requires
        0 <= pos,
        pos + json_tags_rest(rest).len() < v.len(),
        v.subrange(pos, pos + json_tags_rest(rest).len()) == json_tags_rest(rest),
        v[pos + json_tags_rest(rest).len()] != ',',
    ensures
        spec_parse_tags_rest(v, pos, acc) == Some(
            (acc + rest, pos + json_tags_rest(rest).len()),
        ),
    decreases rest.len(),
{
    let jr = json_tags_rest(rest);
    if rest.len() == 0 {
        assert(acc + rest =~= acc);
    } else {
        let s0 = rest[0];
        let js = json_string(s0);
        assert(jr == seq![','] + js + json_tags_rest(rest.drop_first()));
        assert(jr[0] == ',');
        lemma_window_index(v, pos, jr, 0);
        assert(v[pos] == ',');
        assert(jr.subrange(1, 1 + js.len() as int) =~= js);
        lemma_sub_slice(v, pos, jr, 1, js);
        lemma_parse_string_rt(v, pos + 1, s0);
        let e = pos + 1 + js.len() as int;
        let tail = json_tags_rest(rest.drop_first());
        assert(jr.subrange(1 + js.len() as int, jr.len() as int) =~= tail);
        lemma_sub_slice(v, pos, jr, 1 + js.len() as int, tail);
        lemma_parse_tags_rest_rt(v, e, rest.drop_first(), acc.push(s0));
        assert(acc.push(s0) + rest.drop_first() =~= acc + rest);
    }
}

/// Reading right after a written tag list collects exactly the tags and
/// stops at the closing bracket.
pub proof fn lemma_parse_tags_rt(v: Seq<char>, pos: int, tags: Seq<Seq<char>>)
    requires
        0 <= pos,
        pos + json_tags(tags).len() < v.len(),
        v.subrange(pos, pos + json_tags(tags).len()) == json_tags(tags),
        v[pos + json_tags(tags).len()] == ']',
    ensures
        spec_parse_tags(v, pos) == Some((tags, pos + json_tags(tags).len())),
{
    let jt = json_tags(tags);
    if tags.len() == 0 {
        assert(v[pos] == ']');
        assert(spec_parse_tags(v, pos) == Some((Seq::<Seq<char>>::empty(), pos)));
        assert(tags =~= Seq::<Seq<char>>::empty());
    } else {
        lemma_json_tags_front(tags);
        let s0 = tags[0];
        let js = json_string(s0);
        let tail = json_tags_rest(tags.drop_first());
        assert(jt == js + tail);
        assert(jt[0] == js[0]);
        lemma_window_index(v, pos, jt, 0);
        assert(v[pos] == '"');
        assert(v[pos] != ']');
        assert(jt.subrange(0, js.len() as int) =~= js);
        lemma_sub_slice(v, pos, jt, 0, js);
        lemma_parse_string_rt(v, pos, s0);
        let e = pos + js.len() as int;
        assert(jt.subrange(js.len() as int, jt.len() as int) =~= tail);
        lemma_sub_slice(v, pos, jt, js.len() as int, tail);
        lemma_parse_tags_rest_rt(v, e, tags.drop_first(), seq![s0]);
        assert(seq![s0] + tags.drop_first() =~= tags);
    }
}

/// Reading right after a written task record yields the record and stops
/// behind its closing brace.
#[verifier::rlimit(100)]
#[verifier::spinoff_prover]
pub proof fn lemma_parse_task_rt(v: Seq<char>, pos: int, t: TaskView)
    requires
        0 <= pos,
        pos + json_task(t).len() <= v.len(),
        v.subrange(pos, pos + json_task(t).len()) == json_task(t),
    ensures
        spec_parse_task(v, pos) == Some((t, pos + json_task(t).len())),
{
    reveal_strlit("{\"id\":");
    reveal_strlit(",\"title\":");
    reveal_strlit(",\"description\":");
    reveal_strlit(",\"tags\":[");
    reveal_strlit("],\"created_at\":");
    reveal_strlit(",\"due_date\":");
    reveal_strlit(",\"status\":");
    reveal_strlit("}");
    reveal_strlit("null");
    let jt = json_task(t);
    let l1 = "{\"id\":"@;
    let f1 = dec_nat(t.id as nat);
    let l2 = ",\"title\":"@;
    let f2 = json_string(t.title);
    let l3 = ",\"description\":"@;
    let f3 = json_opt_string(t.description);
    let l4 = ",\"tags\":["@;
    let f4 = json_tags(t.tags);
    let l5 = "],\"created_at\":"@;
    let f5 = dec_int(t.created_at as int);
    let l6 = ",\"due_date\":"@;
    let f6 = json_opt_i64(t.due_date);
    let l7 = ",\"status\":"@;
    let f7 = json_string(t.status);
    let l8 = "}"@;
    let r7 = f7 + l8;
    let r6b = l7 + r7;
    let r6 = f6 + r6b;
    let r5b = l6 + r6;
    let r5 = f5 + r5b;
    let r4b = l5 + r5;
    let r4 = f4 + r4b;
    let r3b = l4 + r4;
    let r3 = f3 + r3b;
    let r2b = l3 + r3;
    let r2 = f2 + r2b;
    let r1b = l2 + r2;
    let r1 = f1 + r1b;
    assert(jt =~= l1 + r1);
    let q0 = pos;
    lemma_peel(v, q0, l1 + r1, l1, r1);
    let q1 = q0 + l1.len() as int;
    assert(spec_expect(v, q0, l1) == Some(q1));
    // id
    lemma_peel(v, q1, r1, f1, r1b);
    let q2 = q1 + f1.len() as int;
    lemma_window_index(v, q2, r1b, 0);
    assert(r1b[0] == ',');
    lemma_parse_u64_round_trip(v, q1, t.id);
    // ,"title":
    lemma_peel(v, q2, r1b, l2, r2);
    let q3 = q2 + l2.len() as int;
    assert(spec_expect(v, q2, l2) == Some(q3));
    // title string
    lemma_peel(v, q3, r2, f2, r2b);
    let q4 = q3 + f2.len() as int;
    lemma_parse_string_rt(v, q3, t.title);
    // ,"description":
    lemma_peel(v, q4, r2b, l3, r3);
    let q5 = q4 + l3.len() as int;
    assert(spec_expect(v, q4, l3) == Some(q5));
    // description
    lemma_peel(v, q5, r3, f3, r3b);
    let q6 = q5 + f3.len() as int;
    match t.description {
        Some(d) => {
            assert(f3 == json_string(d));
            lemma_window_index(v, q5, f3, 0);
            assert(v[q5] == '"');
            assert(spec_expect(v, q5, "null"@) is None) by {
                if q5 + 4 <= v.len() && v.subrange(q5, q5 + 4) == "null"@ {
                    assert(v.subrange(q5, q5 + 4)[0] == v[q5]);
                    assert(v[q5] == 'n');
                }
            }
            lemma_parse_string_rt(v, q5, d);
            assert(spec_parse_opt_string(v, q5) == Some((Some(d), q6)));
        },
        None => {
            assert(f3 == "null"@);
            assert(spec_expect(v, q5, "null"@) == Some(q6));
            assert(spec_parse_opt_string(v, q5) == Some((None::<Seq<char>>, q6)));
        },
    }
    // ,"tags":[
    lemma_peel(v, q6, r3b, l4, r4);
    let q7 = q6 + l4.len() as int;
    assert(spec_expect(v, q6, l4) == Some(q7));
    // tags, bounded by ']'
    lemma_peel(v, q7, r4, f4, r4b);
    let q8 = q7 + f4.len() as int;
    lemma_window_index(v, q8, r4b, 0);
    assert(r4b[0] == ']');
    lemma_parse_tags_rt(v, q7, t.tags);
    // ],"created_at":
    lemma_peel(v, q8, r4b, l5, r5);
    let q9 = q8 + l5.len() as int;
    assert(spec_expect(v, q8, l5) == Some(q9));
    // created_at, bounded by ','
    lemma_peel(v, q9, r5, f5, r5b);
    let q10 = q9 + f5.len() as int;
    lemma_window_index(v, q10, r5b, 0);
    assert(r5b[0] == ',');
    lemma_parse_i64_round_trip(v, q9, t.created_at);
    // ,"due_date":
    lemma_peel(v, q10, r5b, l6, r6);
    let q11 = q10 + l6.len() as int;
    assert(spec_expect(v, q10, l6) == Some(q11));
    // due_date
    lemma_peel(v, q11, r6, f6, r6b);
    let q12 = q11 + f6.len() as int;
    lemma_window_index(v, q12, r6b, 0);
    assert(r6b[0] == ',');
    match t.due_date {
        Some(n) => {
            assert(f6 == dec_int(n as int));
            lemma_window_index(v, q11, f6, 0);
            assert(spec_expect(v, q11, "null"@) is None) by {
                lemma_dec_nat_digits(if n >= 0 {
                    n as nat
                } else {
                    (-(n as int)) as nat
                });
                if n < 0 {
                    assert(f6[0] == '-');
                } else {
                    assert(f6[0] == dec_nat(n as nat)[0]);
                    assert(is_digit(f6[0]));
                }
                assert(v[q11] != 'n');
                if q11 + 4 <= v.len() && v.subrange(q11, q11 + 4) == "null"@ {
                    assert(v.subrange(q11, q11 + 4)[0] == v[q11]);
                    assert(v[q11] == 'n');
                }
            }
            lemma_parse_i64_round_trip(v, q11, n);
            assert(spec_parse_opt_i64(v, q11) == Some((Some(n), q12)));
        },
        None => {
            assert(f6 == "null"@);
            assert(spec_expect(v, q11, "null"@) == Some(q12));
            assert(spec_parse_opt_i64(v, q11) == Some((None::<i64>, q12)));
        },
    }
    // ,"status":
    lemma_peel(v, q12, r6b, l7, r7);
    let q13 = q12 + l7.len() as int;
    assert(spec_expect(v, q12, l7) == Some(q13));
    // status string
    lemma_peel(v, q13, r7, f7, l8);
    let q14 = q13 + f7.len() as int;
    lemma_parse_string_rt(v, q13, t.status);
    // }
    let q15 = q14 + l8.len() as int;
    assert(spec_expect(v, q14, l8) == Some(q15));
    assert(q15 == pos + jt.len());
    assert(spec_parse_task(v, pos) == Some((t, q15)));
}

/// The task list also reads front-first: the first record, then the rest
/// each behind a comma.
pub open spec fn json_task_list_rest(ts: Seq<TaskView>) -> Seq<char>
    decreases ts.len(),
{
    if ts.len() == 0 {
        Seq::empty()
    } else {
        seq![','] + json_task(ts[0]) + json_task_list_rest(ts.drop_first())
    }
}

/// Appending one more record appends its comma and text.
pub proof fn lemma_json_task_list_rest_back(ts: Seq<TaskView>)
    requires
        ts.len() >= 1,
    ensures
        json_task_list_rest(ts) == json_task_list_rest(ts.drop_last()) + seq![','] + json_task(
            ts.last(),
        ),
    decreases ts.len(),
{
    if ts.len() == 1 {
        assert(ts.drop_last() =~= Seq::<TaskView>::empty());
        assert(ts.drop_first() =~= Seq::<TaskView>::empty());
        assert(ts.last() == ts[0]);
        assert(json_task_list_rest(ts) =~= json_task_list_rest(ts.drop_last()) + seq![',']
            + json_task(ts.last()));
    } else {
        let a = ts[0];
        let mid = ts.drop_first();
        lemma_json_task_list_rest_back(mid);
        assert(ts.drop_last()[0] == a);
        assert(ts.drop_last().drop_first() =~= mid.drop_last());
        assert(mid.last() == ts.last());
        assert(json_task_list_rest(ts) == seq![','] + json_task(a) + json_task_list_rest(mid));
        assert(json_task_list_rest(ts.drop_last()) == seq![','] + json_task(a)
            + json_task_list_rest(ts.drop_last().drop_first()));
        assert(json_task_list_rest(ts.drop_last().drop_first()) == json_task_list_rest(
            mid.drop_last(),
        ));
        assert(json_task_list_rest(ts) =~= json_task_list_rest(ts.drop_last()) + seq![',']
            + json_task(ts.last()));
    }
}

/// The two readings of the task list agree.
pub proof fn lemma_json_task_list_front(ts: Seq<TaskView>)
    requires
        ts.len() >= 1,
    ensures
        json_task_list(ts) == json_task(ts[0]) + json_task_list_rest(ts.drop_first()),
    decreases ts.len(),
{
    if ts.len() == 1 {
        assert(ts.drop_first() =~= Seq::<TaskView>::empty());
        assert(json_task_list(ts) =~= json_task(ts[0]) + json_task_list_rest(ts.drop_first()));
    } else {
        lemma_json_task_list_front(ts.drop_last());
        assert(ts.drop_last()[0] == ts[0]);
        assert(ts.drop_last().drop_first() =~= ts.drop_first().drop_last());
        assert(ts.drop_first().last() == ts.last());
        lemma_json_task_list_rest_back(ts.drop_first());
        assert(json_task_list(ts) =~= json_task(ts[0]) + json_task_list_rest(ts.drop_first()));
    }
}

/// Reading record continuations over written `,record` runs collects them
/// all and stops at the terminator, which is not a comma.
#[verifier::rlimit(100)]
#[verifier::spinoff_prover]
pub proof fn lemma_parse_tasks_rest_rt(
    v: Seq<char>,
    pos: int,
    rest: Seq<TaskView>,
    acc: Seq<TaskView>,
)
    requires
        0 <= pos,
        pos + json_task_list_rest(rest).len() < v.len(),
        v.subrange(pos, pos + json_task_list_rest(rest).len()) == json_task_list_rest(rest),
        v[pos + json_task_list_rest(rest).len()] != ',',
    ensures
        spec_parse_tasks_rest(v, pos, acc) == Some(
            (acc + rest, pos + json_task_list_rest(rest).len()),
        ),
    decreases rest.len(),
{
    let jr = json_task_list_rest(rest);
    if rest.len() == 0 {
        assert(acc + rest =~= acc);
    } else {
        let t0 = rest[0];
        let js = json_task(t0);
        assert(jr == seq![','] + js + json_task_list_rest(rest.drop_first()));
        assert(jr[0] == ',');
        lemma_window_index(v, pos, jr, 0);
        assert(v[pos] == ',');
        assert(jr.subrange(1, 1 + js.len() as int) =~= js);
        lemma_sub_slice(v, pos, jr, 1, js);
        lemma_parse_task_rt(v, pos + 1, t0);
        let e = pos + 1 + js.len() as int;
        let tail = json_task_list_rest(rest.drop_first());
        assert(jr.subrange(1 + js.len() as int, jr.len() as int) =~= tail);
        lemma_sub_slice(v, pos, jr, 1 + js.len() as int, tail);
        lemma_parse_tasks_rest_rt(v, e, rest.drop_first(), acc.push(t0));
        assert(acc.push(t0) + rest.drop_first() =~= acc + rest);
    }
}

/// A task record is never empty and always opens with its brace.
proof fn lemma_json_task_first_char(t: TaskView)
    ensures
        json_task(t).len() >= 1,
        json_task(t)[0] == '{',
{
    reveal_strlit("{\"id\":");
}

/// The document wraps the record list in brackets: the windows each part
/// occupies.
#[verifier::spinoff_prover]
proof fn lemma_doc_windows(ts: Seq<TaskView>)
    ensures
        json_tasks(ts).len() == json_task_list(ts).len() + 2,
        spec_expect(json_tasks(ts), 0, "["@) == Some(1int),
        json_tasks(ts).subrange(1, 1 + json_task_list(ts).len() as int) == json_task_list(ts),
        json_tasks(ts)[1 + json_task_list(ts).len() as int] == ']',
{
    reveal_strlit("[");
    let v = json_tasks(ts);
    let body = json_task_list(ts);
    assert(v == seq!['['] + body + seq![']']);
    assert(v =~= seq!['['] + (body + seq![']']));
    assert(v.subrange(0, v.len() as int) =~= v);
    lemma_peel(v, 0, seq!['['] + (body + seq![']']), seq!['['], body + seq![']']);
    lemma_peel(v, 1, body + seq![']'], body, seq![']']);
    lemma_window_index(v, 1 + body.len() as int, seq![']'], 0);
    assert(v.subrange(0, 1) =~= "["@);
}

/// Writing a non-empty task sequence and reading the document back
/// yields exactly that sequence.
#[verifier::rlimit(100)]
#[verifier::spinoff_prover]
proof fn lemma_json_round_trip_nonempty(ts: Seq<TaskView>)
    requires
        ts.len() > 0,
    ensures
        spec_parse_doc(json_tasks(ts)) == Some(ts),
{
    lemma_doc_windows(ts);
    let v = json_tasks(ts);
    let body = json_task_list(ts);
    lemma_json_task_list_front(ts);
    let t0 = ts[0];
    let js = json_task(t0);
    let tail = json_task_list_rest(ts.drop_first());
    assert(body == js + tail);
    assert(body.subrange(0, js.len() as int) =~= js);
    lemma_sub_slice(v, 1, body, 0, js);
    lemma_parse_task_rt(v, 1, t0);
    lemma_json_task_first_char(t0);
    lemma_window_index(v, 1, body, 0);
    assert(body[0] == js[0]);
    assert(v[1] == '{');
    assert(v[1] != ']');
    let e = 1 + js.len() as int;
    assert(body.subrange(js.len() as int, body.len() as int) =~= tail);
    lemma_sub_slice(v, 1, body, js.len() as int, tail);
    assert(e + tail.len() as int == 1 + body.len() as int);
    lemma_parse_tasks_rest_rt(v, e, ts.drop_first(), seq![t0]);
    assert(seq![t0] + ts.drop_first() =~= ts);
    assert(e + tail.len() as int + 1 == v.len());
}

/// Writing any sequence of tasks and reading the document back yields
/// exactly that sequence: the codec loses nothing.
pub proof fn lemma_json_round_trip(ts: Seq<TaskView>)
    ensures
        spec_parse_doc(json_tasks(ts)) == Some(ts),
{
    if ts.len() == 0 {
        reveal_strlit("[");
        let v = json_tasks(ts);
        let body = json_task_list(ts);
        assert(body.len() == 0);
        assert(v =~= seq!['[', ']']);
        assert(v.subrange(0, 1) =~= "["@);
        assert(spec_expect(v, 0, "["@) == Some(1int));
        assert(v[1] == ']');
        assert(1 + 1 == v.len());
        assert(spec_parse_doc(v) == Some(Seq::<TaskView>::empty()));
        assert(ts =~= Seq::<TaskView>::empty());
    } else {
        lemma_json_round_trip_nonempty(ts);
    }
}

/// Writes `s` as a JSON string, escapes included.
pub fn append_json_string(out: &mut Vec<char>, s: &str)
    ensures
        final(out)@ == old(out)@ + json_string(s@),
{
    let n = s.unicode_len();
    out.push('"');
    let mut i: usize = 0;
    proof {
        assert(esc(s@.take(0)) =~= Seq::<char>::empty());
        assert(out@ =~= old(out)@ + seq!['"'] + esc(s@.take(0)));
    }
    while i < n
        invariant
            n == s@.len(),
            i <= n,
            out@ == old(out)@ + seq!['"'] + esc(s@.take(i as int)),
        decreases n - i,
    {
        let c = s.get_char(i);
        if c == '"' || c == '\\' {
            out.push('\\');
            out.push(c);
        } else {
            out.push(c);
        }
        proof {
            assert(s@.take(i + 1).drop_last() =~= s@.take(i as int));
            assert(s@.take(i + 1).last() == s@[i as int]);
            assert(esc(s@.take(i + 1)) == esc(s@.take(i as int)) + esc_char(s@[i as int]));
            assert(out@ =~= old(out)@ + seq!['"'] + esc(s@.take(i + 1)));
        }
        i = i + 1;
    }
    out.push('"');
    proof {
        assert(s@.take(n as int) =~= s@);
        assert(out@ =~= old(out)@ + json_string(s@));
    }
}

/// Writes one task record.
pub fn append_task(out: &mut Vec<char>, t: &Task)
    ensures
        final(out)@ == old(out)@ + json_task(t@),
{
    append_str(out, "{\"id\":");
    let id_chars = crate::num::u64_to_chars(t.id);
    append_chars(out, &id_chars);
    append_str(out, ",\"title\":");
    append_json_string(out, t.title.as_str());
    append_str(out, ",\"description\":");
    match &t.description {
        Some(d) => {
            append_json_string(out, d.as_str());
        },
        None => {
            append_str(out, "null");
        },
    }
    append_str(out, ",\"tags\":[");
    let m = t.tags.len();
    let mut j: usize = 0;
    let ghost mid = out@;
    proof {
        assert(json_tags(t@.tags.take(0)) =~= Seq::<char>::empty());
        assert(out@ =~= mid + json_tags(t@.tags.take(0)));
    }
    while j < m
        invariant
            m == t@.tags.len(),
            j <= m,
            t@ == t.view(),
            out@ == mid + json_tags(t@.tags.take(j as int)),
        decreases m - j,
    {
        if j > 0 {
            out.push(',');
        }
        append_json_string(out, t.tags[j].as_str());
        proof {
            assert(t@.tags.take(j + 1).drop_last() =~= t@.tags.take(j as int));
            assert(t@.tags.take(j + 1).last() == t@.tags[j as int]);
            assert(t@.tags[j as int] == t.tags@[j as int]@);
            if j == 0 {
                assert(json_tags(t@.tags.take(1)) == json_string(t@.tags[0]));
                assert(out@ =~= mid + json_tags(t@.tags.take(1)));
            } else {
                assert(json_tags(t@.tags.take(j + 1)) == json_tags(t@.tags.take(j as int))
                    + seq![','] + json_string(t@.tags[j as int]));
                assert(out@ =~= mid + json_tags(t@.tags.take(j + 1)));
            }
        }
        j = j + 1;
    }
    proof {
        assert(t@.tags.take(m as int) =~= t@.tags);
    }
    append_str(out, "],\"created_at\":");
    let created_chars = crate::num::i64_to_chars(t.created_at);
    append_chars(out, &created_chars);
    append_str(out, ",\"due_date\":");
    match t.due_date {
        Some(n) => {
            let due_chars = crate::num::i64_to_chars(n);
            append_chars(out, &due_chars);
        },
        None => {
            append_str(out, "null");
        },
    }
    append_str(out, ",\"status\":");
    append_json_string(out, t.status.as_str());
    append_str(out, "}");
    proof {
        assert(out@ =~= old(out)@ + json_task(t@));
    }
}

/// Writes the whole persisted document for the given tasks.
pub fn encode_tasks(tasks: &Vec<Task>) -> (r: String)
    ensures
        r@ == json_tasks(tasks.deep_view()),
{
    let mut out: Vec<char> = Vec::new();
    out.push('[');
    let n = tasks.len();
    let mut i: usize = 0;
    proof {
        assert(json_task_list(tasks.deep_view().take(0)) =~= Seq::<char>::empty());
        assert(out@ =~= seq!['['] + json_task_list(tasks.deep_view().take(0)));
    }
    while i < n
        invariant
            n == tasks@.len(),
            out@ == seq!['['] + json_task_list(tasks.deep_view().take(i as int)),
            i <= n,
        decreases n - i,
    {
        if i > 0 {
            out.push(',');
        }
        append_task(&mut out, &tasks[i]);
        proof {
            let dv = tasks.deep_view();
            assert(dv.take(i + 1).drop_last() =~= dv.take(i as int));
            assert(dv.take(i + 1).last() == dv[i as int]);
            assert(dv[i as int] == tasks@[i as int]@);
            if i == 0 {
                assert(json_task_list(dv.take(1)) == json_task(dv[0]));
                assert(out@ =~= seq!['['] + json_task_list(dv.take(1)));
            } else {
                assert(json_task_list(dv.take(i + 1)) == json_task_list(dv.take(i as int))
                    + seq![','] + json_task(dv[i as int]));
                assert(out@ =~= seq!['['] + json_task_list(dv.take(i + 1)));
            }
        }
        i = i + 1;
    }
    out.push(']');
    proof {
        assert(tasks.deep_view().take(n as int) =~= tasks.deep_view());
        assert(out@ =~= json_tasks(tasks.deep_view()));
    }
    crate::text::chars_to_string(&out)
}

/// Steps past the characters of `lit` at `pos`, exactly as
/// [`spec_expect`] describes.
pub fn expect_lit(v: &Vec<char>, pos: usize, lit: &str) -> (r: Option<usize>)
    requires
        pos <= v@.len(),
    ensures
        match r {
            Some(e) => spec_expect(v@, pos as int, lit@) == Some(e as int) && pos <= e
                <= v@.len(),
            None => spec_expect(v@, pos as int, lit@) is None,
        },
{
    let n = lit.unicode_len();
    if n > v.len() - pos {
        return None;
    }
    let mut i: usize = 0;
    while i < n
        invariant
            n == lit@.len(),
            pos + n <= v@.len(),
            v@.len() <= usize::MAX,
            i <= n,
            forall|j: int| 0 <= j < i ==> v@[pos + j] == lit@[j],
        decreases n - i,
    {
        if v[pos + i] != lit.get_char(i) {
            proof {
                assert(v@.subrange(pos as int, pos + lit@.len())[i as int] == v@[pos + i]);
                assert(v@.subrange(pos as int, pos + lit@.len()) != lit@);
            }
            return None;
        }
        i = i + 1;
    }
    proof {
        lemma_slice_eq(v@, pos as int, lit@);
    }
    Some(pos + n)
}

/// Reads a complete JSON string at `pos`, exactly as
/// [`spec_parse_string`] describes.
pub fn parse_string_at(v: &Vec<char>, pos: usize) -> (r: Option<(String, usize)>)
    requires
        pos <= v@.len(),
    ensures
        match r {
            Some((s, e)) => spec_parse_string(v@, pos as int) == Some((s@, e as int)) && pos < e
                <= v@.len(),
            None => spec_parse_string(v@, pos as int) is None,
        },
{
    if pos >= v.len() || v[pos] != '"' {
        return None;
    }
    let mut acc: Vec<char> = Vec::new();
    let mut p: usize = pos + 1;
    while p < v.len()
        invariant
            pos + 1 <= p <= v@.len(),
            pos < v@.len(),
            v@[pos as int] == '"',
            spec_parse_string(v@, pos as int) == spec_parse_string_chars(v@, p as int, acc@),
        decreases v@.len() - p,
    {
        let c = v[p];
        if c == '"' {
            let s = crate::text::chars_to_string(&acc);
            return Some((s, p + 1));
        } else if c == '\\' {
            if p + 1 < v.len() {
                acc.push(v[p + 1]);
                p = p + 2;
            } else {
                return None;
            }
        } else {
            acc.push(c);
            p = p + 1;
        }
    }
    None
}

/// Reads `null` or a JSON string at `pos`, exactly as
/// [`spec_parse_opt_string`] describes.
pub fn parse_opt_string_at(v: &Vec<char>, pos: usize) -> (r: Option<(Option<String>, usize)>)
    requires
        pos <= v@.len(),
    ensures
        match r {
            Some((d, e)) => spec_parse_opt_string(v@, pos as int) == Some(
                (crate::task::opt_str_view(d), e as int),
            ) && pos < e <= v@.len(),
            None => spec_parse_opt_string(v@, pos as int) is None,
        },
{
    match expect_lit(v, pos, "null") {
        Some(e) => {
            proof {
                reveal_strlit("null");
            }
            Some((None, e))
        },
        None => match parse_string_at(v, pos) {
            Some((s, e)) => Some((Some(s), e)),
            None => None,
        },
    }
}

/// Reads `null` or a signed number at `pos`, exactly as
/// [`spec_parse_opt_i64`] describes.
pub fn parse_opt_i64_at(v: &Vec<char>, pos: usize) -> (r: Option<(Option<i64>, usize)>)
    requires
        pos <= v@.len(),
    ensures
        match r {
            Some((d, e)) => spec_parse_opt_i64(v@, pos as int) == Some((d, e as int)) && pos < e
                <= v@.len(),
            None => spec_parse_opt_i64(v@, pos as int) is None,
        },
{
    match expect_lit(v, pos, "null") {
        Some(e) => {
            proof {
                reveal_strlit("null");
            }
            Some((None, e))
        },
        None => match crate::num::parse_i64(v, pos) {
            Some((n, e)) => Some((Some(n), e)),
            None => None,
        },
    }
}

/// Reads the tag list at `pos`, exactly as [`spec_parse_tags`] describes.
pub fn parse_tags_at(v: &Vec<char>, pos: usize) -> (r: Option<(Vec<String>, usize)>)
    requires
        pos <= v@.len(),
    ensures
        match r {
            Some((tags, e)) => spec_parse_tags(v@, pos as int) == Some(
                (tags.deep_view(), e as int),
            ) && pos <= e <= v@.len(),
            None => spec_parse_tags(v@, pos as int) is None,
        },
{
    if pos < v.len() && v[pos] == ']' {
        let tags: Vec<String> = Vec::new();
        proof {
            assert(tags.deep_view() =~= Seq::<Seq<char>>::empty());
        }
        return Some((tags, pos));
    }
    let (s0, e0) = match parse_string_at(v, pos) {
        Some(x) => x,
        None => {
            return None;
        },
    };
    let mut tags: Vec<String> = Vec::new();
    let ghost s0v = s0@;
    tags.push(s0);
    proof {
        assert(tags.deep_view() =~= seq![s0v]);
    }
    let mut p: usize = e0;
    while p < v.len() && v[p] == ','
        invariant
            pos < p <= v@.len(),
            spec_parse_tags(v@, pos as int) == spec_parse_tags_rest(
                v@,
                p as int,
                tags.deep_view(),
            ),
        decreases v@.len() - p,
    {
        let (s, e) = match parse_string_at(v, p + 1) {
            Some(x) => x,
            None => {
                return None;
            },
        };
        let ghost prev = tags;
        let ghost sv = s@;
        tags.push(s);
        proof {
            crate::text::lemma_deep_view_push(tags, prev, sv);
        }
        p = e;
    }
    Some((tags, p))
}

/// Reads one task record at `pos`, exactly as [`spec_parse_task`]
/// describes.
pub fn parse_task_at(v: &Vec<char>, pos: usize) -> (r: Option<(Task, usize)>)
    requires
        pos <= v@.len(),
    ensures
        match r {
            Some((t, e)) => spec_parse_task(v@, pos as int) == Some((t@, e as int)) && pos < e
                <= v@.len(),
            None => spec_parse_task(v@, pos as int) is None,
        },
{
    let p1 = match expect_lit(v, pos, "{\"id\":") {
        Some(p) => p,
        None => {
            return None;
        },
    };
    let (id, p2) = match crate::num::parse_u64(v, p1) {
        Some(x) => x,
        None => {
            return None;
        },
    };
    let p3 = match expect_lit(v, p2, ",\"title\":") {
        Some(p) => p,
        None => {
            return None;
        },
    };
    let (title, p4) = match parse_string_at(v, p3) {
        Some(x) => x,
        None => {
            return None;
        },
    };
    let p5 = match expect_lit(v, p4, ",\"description\":") {
        Some(p) => p,
        None => {
            return None;
        },
    };
    let (description, p6) = match parse_opt_string_at(v, p5) {
        Some(x) => x,
        None => {
            return None;
        },
    };
    let p7 = match expect_lit(v, p6, ",\"tags\":[") {
        Some(p) => p,
        None => {
            return None;
        },
    };
    let (tags, p8) = match parse_tags_at(v, p7) {
        Some(x) => x,
        None => {
            return None;
        },
    };
    let p9 = match expect_lit(v, p8, "],\"created_at\":") {
        Some(p) => p,
        None => {
            return None;
        },
    };
    let (created_at, p10) = match crate::num::parse_i64(v, p9) {
        Some(x) => x,
        None => {
            return None;
        },
    };
    let p11 = match expect_lit(v, p10, ",\"due_date\":") {
        Some(p) => p,
        None => {
            return None;
        },
    };
    let (due_date, p12) = match parse_opt_i64_at(v, p11) {
        Some(x) => x,
        None => {
            return None;
        },
    };
    let p13 = match expect_lit(v, p12, ",\"status\":") {
        Some(p) => p,
        None => {
            return None;
        },
    };
    let (status, p14) = match parse_string_at(v, p13) {
        Some(x) => x,
        None => {
            return None;
        },
    };
    let p15 = match expect_lit(v, p14, "}") {
        Some(p) => p,
        None => {
            return None;
        },
    };
    let task = Task { id, title, description, tags, created_at, due_date, status };
    Some((task, p15))
}

/// Reads a whole persisted document, exactly as [`spec_parse_doc`]
/// describes: the parsed tasks on success, `None` on any malformed text.
pub fn parse_tasks(s: &str) -> (r: Option<Vec<Task>>)
    ensures
        match spec_parse_doc(s@) {
            Some(ts) => r matches Some(out) && out.deep_view() == ts,
            None => r is None,
        },
{
    let v = crate::text::chars_of(s);
    let p1 = match expect_lit(&v, 0, "[") {
        Some(p) => p,
        None => {
            return None;
        },
    };
    if p1 < v.len() && v[p1] == ']' {
        if p1 + 1 == v.len() {
            let out: Vec<Task> = Vec::new();
            proof {
                assert(out.deep_view() =~= Seq::<TaskView>::empty());
            }
            return Some(out);
        } else {
            return None;
        }
    }
    let (t0, p2) = match parse_task_at(&v, p1) {
        Some(x) => x,
        None => {
            return None;
        },
    };
    let mut out: Vec<Task> = Vec::new();
    let ghost t0v = t0@;
    out.push(t0);
    proof {
        assert(out.deep_view() =~= seq![t0v]);
    }
    let mut p: usize = p2;
    proof {
        assert(spec_parse_doc(v@) == (match spec_parse_tasks_rest(v@, p2 as int, seq![t0v]) {
            None => None::<Seq<TaskView>>,
            Some((ts, p3)) => if p3 < v@.len() && v@[p3] == ']' && p3 + 1 == v@.len() {
                Some(ts)
            } else {
                None
            },
        }));
    }
    while p < v.len() && v[p] == ','
        invariant
            0 < p <= v@.len(),
            v@ == s@,
            spec_parse_doc(v@) == (match spec_parse_tasks_rest(v@, p as int, out.deep_view()) {
                None => None::<Seq<TaskView>>,
                Some((ts, p3)) => if p3 < v@.len() && v@[p3] == ']' && p3 + 1 == v@.len() {
                    Some(ts)
                } else {
                    None
                },
            }),
        decreases v@.len() - p,
    {
        let (t, e) = match parse_task_at(&v, p + 1) {
            Some(x) => x,
            None => {
                return None;
            },
        };
        let ghost prev = out;
        let ghost tv = t@;
        out.push(t);
        proof {
            crate::text::lemma_deep_view_push(out, prev, tv);
        }
        p = e;
    }
    if p < v.len() && v[p] == ']' && p + 1 == v.len() {
        Some(out)
    } else {
        None
    }
}

} // verus!
