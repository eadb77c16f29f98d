//! The export format: one CSV row per task under a fixed header, with
//! text fields quoted, and the import that reads such rows back. The tag
//! field joins the tags with a comma and a space, so a tag containing that
//! pair itself does not survive the trip; ids, statuses and descriptions
//! do.

use vstd::prelude::*;

use crate::num::{dec_int, dec_nat, spec_parse_i64, spec_parse_u64};
use crate::task::{Task, TaskView};

verus! {

/// How one character is written inside a quoted field: a double quote is
/// doubled, everything else stands as it is.
pub open spec fn csv_esc_char(c: char) -> Seq<char> {
    if c == '"' {
        seq!['"', '"']
    } else {
        seq![c]
    }
}

/// The escaped body of a quoted field.
pub open spec fn csv_esc(s: Seq<char>) -> Seq<char>
    decreases s.len(),
{
    if s.len() == 0 {
        Seq::empty()
    } else {
        csv_esc(s.drop_last()) + csv_esc_char(s.last())
    }
}

/// A quoted field: the escaped body between double quotes.
pub open spec fn csv_field(s: Seq<char>) -> Seq<char> {
    seq!['"'] + csv_esc(s) + seq!['"']
}

/// The tags joined into one field by a comma and a space.
pub open spec fn join_tags(tags: Seq<Seq<char>>) -> Seq<char>
    decreases tags.len(),
{
    if tags.len() == 0 {
        Seq::empty()
    } else if tags.len() == 1 {
        tags[0]
    } else {
        join_tags(tags.drop_last()) + seq![',', ' '] + tags.last()
    }
}

/// One row: id, status, joined tags, description (empty when absent),
/// creation time, due time (empty when absent), and a line break.
pub open spec fn csv_row(t: TaskView) -> Seq<char> {
    dec_nat(t.id as nat) + seq![','] + csv_field(t.status) + seq![','] + csv_field(
        join_tags(t.tags),
    ) + seq![','] + csv_field(
        match t.description {
            Some(d) => d,
            None => Seq::empty(),
        },
    ) + seq![','] + dec_int(t.created_at as int) + seq![','] + (match t.due_date {
        Some(n) => dec_int(n as int),
        None => Seq::empty(),
    }) + seq!['\n']
}

/// The rows of all tasks, in order.
pub open spec fn csv_rows(ts: Seq<TaskView>) -> Seq<char>
    decreases ts.len(),
{
    if ts.len() == 0 {
        Seq::empty()
    } else {
        csv_rows(ts.drop_last()) + csv_row(ts.last())
    }
}

/// The whole export: the header line, then one row per task.
pub open spec fn csv_doc(ts: Seq<TaskView>) -> Seq<char> {
    "id,status,tag,description,created_at,due_date\n"@ + csv_rows(ts)
}

/// The position of the first `", "` separator in `s`, if any.
pub open spec fn find_sep(s: Seq<char>) -> Option<int>
    decreases s.len(),
{
    if s.len() < 2 {
        None
    } else if s[0] == ',' && s[1] == ' ' {
        Some(0)
    } else {
        match find_sep(s.drop_first()) {
            Some(k) => Some(k + 1),
            None => None,
        }
    }
}

/// The field split at every `", "` separator; a field without one is a
/// single tag, so an empty field yields one empty tag.
pub open spec fn split_tags(s: Seq<char>) -> Seq<Seq<char>>
    decreases s.len(),
{
    match find_sep(s) {
        None => seq![s],
        Some(k) => if 0 <= k && k + 2 <= s.len() {
            seq![s.take(k)] + split_tags(s.skip(k + 2))
        } else {
            seq![s]
        },
    }
}

/// `find_sep` returns exactly the position of the first separator.
pub proof fn lemma_find_sep_at(s: Seq<char>, k: int)
    requires
        0 <= k,
        k + 2 <= s.len(),
        s[k] == ',',
        s[k + 1] == ' ',
        forall|j: int| 0 <= j < k ==> !((#[trigger] s[j]) == ',' && s[j + 1] == ' '),
    ensures
        find_sep(s) == Some(k),
    decreases k,
{
    if k > 0 {
        lemma_find_sep_at(s.drop_first(), k - 1);
    }
}

/// `find_sep` returns `None` exactly when no separator occurs.
pub proof fn lemma_find_sep_none(s: Seq<char>)
    requires
        forall|j: int|
            0 <= j && j + 2 <= s.len() ==> !((#[trigger] s[j]) == ',' && s[j + 1] == ' '),
    ensures
        find_sep(s) is None,
    decreases s.len(),
{
    if s.len() >= 2 {
        lemma_find_sep_none(s.drop_first());
    }
}

/// Reads the body of a quoted field up to its closing quote, undoing the
/// doubling; `acc` holds what was read so far.
pub open spec fn spec_parse_q_chars(v: Seq<char>, pos: int, acc: Seq<char>) -> Option<
    (Seq<char>, int),
>
    decreases v.len() - pos,
    when 0 <= pos <= v.len()
{
    if pos >= v.len() {
        None
    } else if v[pos] == '"' {
        if pos + 1 < v.len() && v[pos + 1] == '"' {
            spec_parse_q_chars(v, pos + 2, acc.push('"'))
        } else {
            Some((acc, pos + 1))
        }
    } else {
        spec_parse_q_chars(v, pos + 1, acc.push(v[pos]))
    }
}

/// Reads a complete quoted field at `pos`.
pub open spec fn spec_parse_qfield(v: Seq<char>, pos: int) -> Option<(Seq<char>, int)> {
    if 0 <= pos < v.len() && v[pos] == '"' {
        spec_parse_q_chars(v, pos + 1, Seq::empty())
    } else {
        None
    }
}

/// Reads one row at `pos`. The export carries no title column, so the
/// imported task's title is taken from the description field, and the
/// description is always present after an import.
pub open spec fn spec_parse_row(v: Seq<char>, pos: int) -> Option<(TaskView, int)> {
    match spec_parse_u64(v, pos) {
        None => None,
        Some((id, p1)) => if p1 < v.len() && v[p1] == ',' {
            match spec_parse_qfield(v, p1 + 1) {
                None => None,
                Some((status, p2)) => if p2 < v.len() && v[p2] == ',' {
                    match spec_parse_qfield(v, p2 + 1) {
                        None => None,
                        Some((tagfield, p3)) => if p3 < v.len() && v[p3] == ',' {
                            match spec_parse_qfield(v, p3 + 1) {
                                None => None,
                                Some((descr, p4)) => if p4 < v.len() && v[p4] == ',' {
                                    match spec_parse_i64(v, p4 + 1) {
                                        None => None,
                                        Some((created_at, p5)) => if p5 < v.len() && v[p5]
                                            == ',' {
                                            if p5 + 1 < v.len() && v[p5 + 1] == '\n' {
                                                Some(
                                                    (
                                                        TaskView {
                                                            id,
                                                            title: descr,
                                                            description: Some(descr),
                                                            tags: split_tags(tagfield),
                                                            created_at,
                                                            due_date: None,
                                                            status,
                                                        },
                                                        p5 + 2,
                                                    ),
                                                )
                                            } else {
                                                match spec_parse_i64(v, p5 + 1) {
                                                    None => None,
                                                    Some((due, p6)) => if p6 < v.len() && v[p6]
                                                        == '\n' {
                                                        Some(
                                                            (
                                                                TaskView {
                                                                    id,
                                                                    title: descr,
                                                                    description: Some(descr),
                                                                    tags: split_tags(tagfield),
                                                                    created_at,
                                                                    due_date: Some(due),
                                                                    status,
                                                                },
                                                                p6 + 1,
                                                            ),
                                                        )
                                                    } else {
                                                        None
                                                    },
                                                }
                                            }
                                        } else {
                                            None
                                        },
                                    }
                                } else {
                                    None
                                },
                            }
                        } else {
                            None
                        },
                    }
                } else {
                    None
                },
            }
        } else {
            None
        },
    }
}

/// Reads rows until the end of the text.
pub open spec fn spec_parse_rows(v: Seq<char>, pos: int, acc: Seq<TaskView>) -> Option<
    Seq<TaskView>,
>
    decreases v.len() - pos,
    when 0 <= pos <= v.len()
{
    if pos == v.len() {
        Some(acc)
    } else {
        match spec_parse_row(v, pos) {
            Some((t, e)) => if pos < e <= v.len() {
                spec_parse_rows(v, e, acc.push(t))
            } else {
                None
            },
            None => None,
        }
    }
}

/// Reads a whole export: the exact header line, then rows to the end.
pub open spec fn spec_parse_csv(v: Seq<char>) -> Option<Seq<TaskView>> {
    match crate::json::spec_expect(v, 0, "id,status,tag,description,created_at,due_date\n"@) {
        None => None,
        Some(p) => spec_parse_rows(v, p, Seq::empty()),
    }
}

/// Writes `v` as a quoted field, doubling included.
pub fn append_csv_field(out: &mut Vec<char>, v: &Vec<char>)
    ensures
        final(out)@ == old(out)@ + csv_field(v@),
{
    out.push('"');
    let n = v.len();
    let mut i: usize = 0;
    proof {
        assert(csv_esc(v@.take(0)) =~= Seq::<char>::empty());
        assert(out@ =~= old(out)@ + seq!['"'] + csv_esc(v@.take(0)));
    }
    while i < n
        invariant
            n == v@.len(),
            i <= n,
            out@ == old(out)@ + seq!['"'] + csv_esc(v@.take(i as int)),
        decreases n - i,
    {
        let c = v[i];
        if c == '"' {
            out.push('"');
            out.push('"');
        } else {
            out.push(c);
        }
        proof {
            assert(v@.take(i + 1).drop_last() =~= v@.take(i as int));
            assert(v@.take(i + 1).last() == v@[i as int]);
            assert(out@ =~= old(out)@ + seq!['"'] + csv_esc(v@.take(i + 1)));
        }
        i = i + 1;
    }
    out.push('"');
    proof {
        assert(v@.take(n as int) =~= v@);
        assert(out@ =~= old(out)@ + csv_field(v@));
    }
}

/// The tags joined into one field by a comma and a space.
pub fn join_tags_chars(tags: &Vec<String>) -> (r: Vec<char>)
    ensures
        r@ == join_tags(tags.deep_view()),
{
    let mut r: Vec<char> = Vec::new();
    let n = tags.len();
    let mut i: usize = 0;
    proof {
        assert(join_tags(tags.deep_view().take(0)) =~= Seq::<char>::empty());
        assert(r@ =~= join_tags(tags.deep_view().take(0)));
    }
    while i < n
        invariant
            n == tags@.len(),
            i <= n,
            r@ == join_tags(tags.deep_view().take(i as int)),
        decreases n - i,
    {
        if i > 0 {
            r.push(',');
            r.push(' ');
        }
        crate::text::append_str(&mut r, tags[i].as_str());
        proof {
            let dv = tags.deep_view();
            assert(dv.take(i + 1).drop_last() =~= dv.take(i as int));
            assert(dv.take(i + 1).last() == dv[i as int]);
            assert(dv[i as int] == tags@[i as int]@);
            if i == 0 {
                assert(join_tags(dv.take(1)) == dv[0]);
                assert(r@ =~= join_tags(dv.take(1)));
            } else {
                assert(join_tags(dv.take(i + 1)) == join_tags(dv.take(i as int)) + seq![',', ' ']
                    + dv[i as int]);
                assert(r@ =~= join_tags(dv.take(i + 1)));
            }
        }
        i = i + 1;
    }
    proof {
        assert(tags.deep_view().take(n as int) =~= tags.deep_view());
    }
    r
}

/// Writes one row.
pub fn append_row(out: &mut Vec<char>, t: &Task)
    ensures
        final(out)@ == old(out)@ + csv_row(t@),
{
    let id_chars = crate::num::u64_to_chars(t.id);
    crate::text::append_chars(out, &id_chars);
    out.push(',');
    let status_chars = crate::text::chars_of(t.status.as_str());
    append_csv_field(out, &status_chars);
    out.push(',');
    let tag_chars = join_tags_chars(&t.tags);
    append_csv_field(out, &tag_chars);
    out.push(',');
    let descr_chars = match &t.description {
        Some(d) => crate::text::chars_of(d.as_str()),
        None => Vec::new(),
    };
    proof {
        assert(descr_chars@ == match t@.description {
            Some(d) => d,
            None => Seq::<char>::empty(),
        });
    }
    append_csv_field(out, &descr_chars);
    out.push(',');
    let created_chars = crate::num::i64_to_chars(t.created_at);
    crate::text::append_chars(out, &created_chars);
    out.push(',');
    match t.due_date {
        Some(n) => {
            let due_chars = crate::num::i64_to_chars(n);
            crate::text::append_chars(out, &due_chars);
        },
        None => {},
    }
    out.push('\n');
    proof {
        assert(out@ =~= old(out)@ + csv_row(t@));
    }
}

/// Writes the whole export for the given tasks.
pub fn encode_csv(tasks: &Vec<Task>) -> (r: String)
    ensures
        r@ == csv_doc(tasks.deep_view()),
{
    let mut out: Vec<char> = Vec::new();
    crate::text::append_str(&mut out, "id,status,tag,description,created_at,due_date\n");
    let ghost header = "id,status,tag,description,created_at,due_date\n"@;
    let n = tasks.len();
    let mut i: usize = 0;
    proof {
        assert(csv_rows(tasks.deep_view().take(0)) =~= Seq::<char>::empty());
        assert(out@ =~= header + csv_rows(tasks.deep_view().take(0)));
    }
    while i < n
        invariant
            n == tasks@.len(),
            i <= n,
            out@ == header + csv_rows(tasks.deep_view().take(i as int)),
            header == "id,status,tag,description,created_at,due_date\n"@,
        decreases n - i,
    {
        append_row(&mut out, &tasks[i]);
        proof {
            let dv = tasks.deep_view();
            assert(dv.take(i + 1).drop_last() =~= dv.take(i as int));
            assert(dv.take(i + 1).last() == dv[i as int]);
            assert(dv[i as int] == tasks@[i as int]@);
            assert(out@ =~= header + csv_rows(dv.take(i + 1)));
        }
        i = i + 1;
    }
    proof {
        assert(tasks.deep_view().take(n as int) =~= tasks.deep_view());
    }
    crate::text::chars_to_string(&out)
}

/// What one export-import trip makes of a task: id, status and both
/// timestamps survive exactly; the description field becomes both title
/// and description (an absent description comes back empty); the tags
/// come back as the joined field split again, which restores them exactly
/// when no tag contains the `", "` separator itself.
pub open spec fn reimported(t: TaskView) -> TaskView {
    let d = match t.description {
        Some(d) => d,
        None => Seq::empty(),
    };
    TaskView {
        id: t.id,
        title: d,
        description: Some(d),
        tags: split_tags(join_tags(t.tags)),
        created_at: t.created_at,
        due_date: t.due_date,
        status: t.status,
    }
}

/// Quoting works front-first as well: the first character's doubling,
/// then the quoted rest.
proof fn lemma_csv_esc_front(s: Seq<char>)
    requires
        s.len() > 0,
    ensures
        csv_esc(s) == csv_esc_char(s[0]) + csv_esc(s.drop_first()),
    decreases s.len(),
{
    if s.len() == 1 {
        assert(s.drop_last() =~= Seq::<char>::empty());
        assert(s.drop_first() =~= Seq::<char>::empty());
        assert(csv_esc(s) =~= csv_esc_char(s[0]) + csv_esc(s.drop_first()));
    } else {
        lemma_csv_esc_front(s.drop_last());
        assert(s.drop_last()[0] == s[0]);
        assert(s.drop_last().drop_first() =~= s.drop_first().drop_last());
        assert(s.drop_first().last() == s.last());
        assert(csv_esc(s.drop_first()) == csv_esc(s.drop_first().drop_last()) + csv_esc_char(
            s.last(),
        ));
        assert(csv_esc(s) =~= csv_esc_char(s[0]) + csv_esc(s.drop_first()));
    }
}

/// Reading a quoted body followed by a lone closing quote yields exactly
/// the unquoted text and stops behind the quote. The terminator premise
/// keeps the closing quote from looking like a doubled one.
proof fn lemma_parse_q_chars_rt(v: Seq<char>, pos: int, s: Seq<char>, acc: Seq<char>)
    requires
        0 <= pos,
        pos + csv_esc(s).len() + 1 < v.len(),
        v.subrange(pos, pos + csv_esc(s).len()) == csv_esc(s),
        v[pos + csv_esc(s).len()] == '"',
        v[pos + csv_esc(s).len() + 1] != '"',
    ensures
        spec_parse_q_chars(v, pos, acc) == Some((acc + s, pos + csv_esc(s).len() + 1)),
    decreases s.len(),
{
    if s.len() == 0 {
        assert(csv_esc(s).len() == 0);
        assert(v[pos] == '"');
        assert(acc + s =~= acc);
    } else {
        lemma_csv_esc_front(s);
        let e0 = csv_esc_char(s[0]);
        let rest = s.drop_first();
        let d = e0.len() as int;
        assert(csv_esc(s) == e0 + csv_esc(rest));
        assert(csv_esc(s).subrange(d, csv_esc(s).len() as int) =~= csv_esc(rest));
        crate::text::lemma_sub_slice(v, pos, csv_esc(s), d, csv_esc(rest));
        if s[0] == '"' {
            assert(csv_esc(s)[0] == '"');
            assert(csv_esc(s)[1] == '"');
            crate::text::lemma_window_index(v, pos, csv_esc(s), 0);
            crate::text::lemma_window_index(v, pos, csv_esc(s), 1);
            assert(v[pos] == '"');
            assert(v[pos + 1] == '"');
            lemma_parse_q_chars_rt(v, pos + 2, rest, acc.push('"'));
            assert(acc.push(s[0]) + rest =~= acc + s);
        } else {
            assert(csv_esc(s)[0] == s[0]);
            crate::text::lemma_window_index(v, pos, csv_esc(s), 0);
            assert(v[pos] == s[0]);
            assert(v[pos] != '"');
            // when the rest is empty, the character after this one is the
            // closing quote; the premise says what follows it is not a
            // quote, so the parser will close there
            lemma_parse_q_chars_rt(v, pos + 1, rest, acc.push(s[0]));
            assert(acc.push(s[0]) + rest =~= acc + s);
        }
    }
}

/// Reading right after a written quoted field yields the original text
/// and stops behind its closing quote, provided a non-quote follows.
proof fn lemma_parse_qfield_rt(v: Seq<char>, pos: int, s: Seq<char>)
    requires
        0 <= pos,
        pos + csv_field(s).len() < v.len(),
        v.subrange(pos, pos + csv_field(s).len()) == csv_field(s),
        v[pos + csv_field(s).len()] != '"',
    ensures
        spec_parse_qfield(v, pos) == Some((s, pos + csv_field(s).len())),
{
    let f = csv_field(s);
    assert(f[0] == '"');
    crate::text::lemma_window_index(v, pos, f, 0);
    assert(v[pos] == '"');
    assert(f.subrange(1, 1 + csv_esc(s).len() as int) =~= csv_esc(s));
    crate::text::lemma_sub_slice(v, pos, f, 1, csv_esc(s));
    crate::text::lemma_window_index(v, pos, f, 1 + csv_esc(s).len() as int);
    assert(f[1 + csv_esc(s).len() as int] == '"');
    lemma_parse_q_chars_rt(v, pos + 1, s, Seq::empty());
    assert(Seq::empty() + s =~= s);
}

/// Reading right after a written row yields the reimported task and
/// stops behind the row's line break.
#[verifier::rlimit(100)]
#[verifier::spinoff_prover]
proof fn lemma_parse_row_rt(v: Seq<char>, pos: int, t: TaskView)
    requires
        0 <= pos,
        pos + csv_row(t).len() <= v.len(),
        v.subrange(pos, pos + csv_row(t).len()) == csv_row(t),
    ensures
        spec_parse_row(v, pos) == Some((reimported(t), pos + csv_row(t).len())),
{
    let r0 = csv_row(t);
    let f1 = dec_nat(t.id as nat);
    let f2 = csv_field(t.status);
    let f3 = csv_field(join_tags(t.tags));
    let descr = match t.description {
        Some(d) => d,
        None => Seq::<char>::empty(),
    };
    let f4 = csv_field(descr);
    let f5 = dec_int(t.created_at as int);
    let f6 = match t.due_date {
        Some(n) => dec_int(n as int),
        None => Seq::<char>::empty(),
    };
    let rest10 = f6 + seq!['\n'];
    let rest9 = seq![','] + rest10;
    let rest8 = f5 + rest9;
    let rest7 = seq![','] + rest8;
    let rest6 = f4 + rest7;
    let rest5 = seq![','] + rest6;
    let rest4 = f3 + rest5;
    let rest3 = seq![','] + rest4;
    let rest2 = f2 + rest3;
    let rest1 = seq![','] + rest2;
    assert(r0 =~= f1 + rest1);
    let q0 = pos;
    crate::text::lemma_peel(v, q0, f1 + rest1, f1, rest1);
    let q1 = q0 + f1.len() as int;
    crate::text::lemma_window_index(v, q1, rest1, 0);
    assert(rest1[0] == ',');
    crate::num::lemma_parse_u64_round_trip(v, q0, t.id);
    crate::text::lemma_peel(v, q1, rest1, seq![','], rest2);
    crate::text::lemma_peel(v, q1 + 1, rest2, f2, rest3);
    let q2 = q1 + 1 + f2.len() as int;
    crate::text::lemma_window_index(v, q2, rest3, 0);
    assert(rest3[0] == ',');
    lemma_parse_qfield_rt(v, q1 + 1, t.status);
    crate::text::lemma_peel(v, q2, rest3, seq![','], rest4);
    crate::text::lemma_peel(v, q2 + 1, rest4, f3, rest5);
    let q3 = q2 + 1 + f3.len() as int;
    crate::text::lemma_window_index(v, q3, rest5, 0);
    assert(rest5[0] == ',');
    lemma_parse_qfield_rt(v, q2 + 1, join_tags(t.tags));
    crate::text::lemma_peel(v, q3, rest5, seq![','], rest6);
    crate::text::lemma_peel(v, q3 + 1, rest6, f4, rest7);
    let q4 = q3 + 1 + f4.len() as int;
    crate::text::lemma_window_index(v, q4, rest7, 0);
    assert(rest7[0] == ',');
    lemma_parse_qfield_rt(v, q3 + 1, descr);
    crate::text::lemma_peel(v, q4, rest7, seq![','], rest8);
    crate::text::lemma_peel(v, q4 + 1, rest8, f5, rest9);
    let q5 = q4 + 1 + f5.len() as int;
    crate::text::lemma_window_index(v, q5, rest9, 0);
    assert(rest9[0] == ',');
    crate::num::lemma_parse_i64_round_trip(v, q4 + 1, t.created_at);
    crate::text::lemma_peel(v, q5, rest9, seq![','], rest10);
    crate::text::lemma_peel(v, q5 + 1, rest10, f6, seq!['\n']);
    let q6 = q5 + 1 + f6.len() as int;
    crate::text::lemma_window_index(v, q6, seq!['\n'], 0);
    assert(v[q6] == '\n');
    match t.due_date {
        None => {
            assert(f6.len() == 0);
            assert(v[q5 + 1] == '\n');
        },
        Some(n) => {
            crate::text::lemma_window_index(v, q5 + 1, f6, 0);
            crate::num::lemma_dec_nat_digits(
                if n >= 0 {
                    n as nat
                } else {
                    (-(n as int)) as nat
                },
            );
            if n < 0 {
                assert(f6[0] == '-');
            } else {
                assert(f6[0] == dec_nat(n as nat)[0]);
                assert(crate::num::is_digit(f6[0]));
            }
            assert(v[q5 + 1] != '\n');
            crate::num::lemma_parse_i64_round_trip(v, q5 + 1, n);
        },
    }
    assert(q6 + 1 == pos + r0.len());
    assert(spec_parse_row(v, pos) == Some((reimported(t), pos + r0.len())));
}

/// The rows read front-first as well: the first row's text, then the
/// rest.
proof fn lemma_csv_rows_front(ts: Seq<TaskView>)
    requires
        ts.len() > 0,
    ensures
        csv_rows(ts) == csv_row(ts[0]) + csv_rows(ts.drop_first()),
    decreases ts.len(),
{
    if ts.len() == 1 {
        assert(ts.drop_last() =~= Seq::<TaskView>::empty());
        assert(ts.drop_first() =~= Seq::<TaskView>::empty());
        assert(csv_rows(ts) =~= csv_row(ts[0]) + csv_rows(ts.drop_first()));
    } else {
        lemma_csv_rows_front(ts.drop_last());
        assert(ts.drop_last()[0] == ts[0]);
        assert(ts.drop_last().drop_first() =~= ts.drop_first().drop_last());
        assert(ts.drop_first().last() == ts.last());
        assert(csv_rows(ts.drop_first()) == csv_rows(ts.drop_first().drop_last()) + csv_row(
            ts.last(),
        ));
        assert(csv_rows(ts) =~= csv_row(ts[0]) + csv_rows(ts.drop_first()));
    }
}

/// Reading rows over a written run of rows that fills the rest of the
/// text collects every task, reimported, in order.
proof fn lemma_parse_rows_rt(v: Seq<char>, pos: int, rest: Seq<TaskView>, acc: Seq<TaskView>)
    requires
        0 <= pos,
        pos + csv_rows(rest).len() == v.len(),
        v.subrange(pos, pos + csv_rows(rest).len()) == csv_rows(rest),
    ensures
        spec_parse_rows(v, pos, acc) == Some(acc + rest.map_values(|t: TaskView| reimported(t))),
    decreases rest.len(),
{
    if rest.len() == 0 {
        assert(acc + rest.map_values(|t: TaskView| reimported(t)) =~= acc);
    } else {
        lemma_csv_rows_front(rest);
        let t0 = rest[0];
        let row = csv_row(t0);
        let tail = csv_rows(rest.drop_first());
        assert(csv_rows(rest) == row + tail);
        crate::text::lemma_peel(v, pos, row + tail, row, tail);
        lemma_parse_row_rt(v, pos, t0);
        assert(row.len() >= 1);
        let e = pos + row.len() as int;
        lemma_parse_rows_rt(v, e, rest.drop_first(), acc.push(reimported(t0)));
        assert(acc.push(reimported(t0)) + rest.drop_first().map_values(
            |t: TaskView| reimported(t),
        ) =~= acc + rest.map_values(|t: TaskView| reimported(t)));
    }
}

/// Exporting any tasks and importing the export yields exactly their
/// reimported forms: ids, statuses and both timestamps survive, the
/// description doubles as the title, and the tags come back re-split.
pub proof fn lemma_csv_round_trip(ts: Seq<TaskView>)
    ensures
        spec_parse_csv(csv_doc(ts)) == Some(ts.map_values(|t: TaskView| reimported(t))),
{
    let header = "id,status,tag,description,created_at,due_date\n"@;
    let v = csv_doc(ts);
    let rows = csv_rows(ts);
    assert(v == header + rows);
    assert(v.subrange(0, v.len() as int) =~= v);
    crate::text::lemma_peel(v, 0, header + rows, header, rows);
    assert(crate::json::spec_expect(v, 0, header) == Some(header.len() as int));
    lemma_parse_rows_rt(v, header.len() as int, ts, Seq::empty());
    assert(Seq::empty() + ts.map_values(|t: TaskView| reimported(t)) =~= ts.map_values(
        |t: TaskView| reimported(t),
    ));
}

/// The characters of `v` between `a` and `b`.
pub fn sub_chars(v: &Vec<char>, a: usize, b: usize) -> (r: Vec<char>)
    requires
        a <= b <= v@.len(),
    ensures
        r@ == v@.subrange(a as int, b as int),
{
    let mut r: Vec<char> = Vec::new();
    let mut i: usize = a;
    while i < b
        invariant
            a <= i <= b <= v@.len(),
            r@ =~= v@.subrange(a as int, i as int),
        decreases b - i,
    {
        r.push(v[i]);
        assert(r@ =~= v@.subrange(a as int, i + 1));
        i = i + 1;
    }
    r
}

/// Reads a complete quoted field at `pos`, exactly as
/// [`spec_parse_qfield`] describes.
pub fn parse_qfield_at(v: &Vec<char>, pos: usize) -> (r: Option<(Vec<char>, usize)>)
    requires
        pos <= v@.len(),
    ensures
        match r {
            Some((s, e)) => spec_parse_qfield(v@, pos as int) == Some((s@, e as int)) && pos < e
                <= v@.len(),
            None => spec_parse_qfield(v@, pos as int) is None,
        },
{
    if pos >= v.len() || v[pos] != '"' {
        return None;
    }
    let mut acc: Vec<char> = Vec::new();
    let mut p: usize = pos + 1;
    while p < v.len()
        invariant
            pos + 1 <= p <= v@.len(),
            pos < v@.len(),
            v@[pos as int] == '"',
            spec_parse_qfield(v@, pos as int) == spec_parse_q_chars(v@, p as int, acc@),
        decreases v@.len() - p,
    {
        let c = v[p];
        if c == '"' {
            if p + 1 < v.len() && v[p + 1] == '"' {
                acc.push('"');
                p = p + 2;
            } else {
                return Some((acc, p + 1));
            }
        } else {
            acc.push(c);
            p = p + 1;
        }
    }
    None
}

/// Splits a tag field at every `", "`, exactly as [`split_tags`]
/// describes.
pub fn split_tags_of(field: &Vec<char>) -> (r: Vec<String>)
    ensures
        r.deep_view() == split_tags(field@),
{
    let mut r: Vec<String> = Vec::new();
    let mut p: usize = 0;
    proof {
        assert(field@.skip(0) =~= field@);
    }
    while p <= field.len()
        invariant
            p <= field@.len(),
            split_tags(field@) == r.deep_view() + split_tags(field@.skip(p as int)),
        decreases field@.len() - p,
    {
        // scan for the next ", " separator
        let n = field.len();
        let mut j: usize = p;
        let mut sep: Option<usize> = None;
        while n - j > 1
            invariant_except_break
                sep is None,
            invariant
                n == field@.len(),
                p <= j,
                j <= n,
                forall|q: int|
                    p <= q < j ==> !((#[trigger] field@[q]) == ',' && field@[q + 1] == ' '),
            ensures
                match sep {
                    Some(k) => p <= k && k + 2 <= n && field@[k as int] == ','
                        && field@[k + 1] == ' ' && forall|q: int|
                        p <= q < k ==> !((#[trigger] field@[q]) == ',' && field@[q + 1] == ' '),
                    None => forall|q: int|
                        p <= q && q + 2 <= n ==> !((#[trigger] field@[q]) == ',' && field@[q + 1]
                            == ' '),
                },
            decreases n - j,
        {
            if field[j] == ',' && field[j + 1] == ' ' {
                sep = Some(j);
                break ;
            }
            j = j + 1;
        }
        match sep {
            Some(k) => {
                proof {
                    let tail = field@.skip(p as int);
                    assert forall|q: int| 0 <= q < k - p implies !((#[trigger] tail[q]) == ','
                        && tail[q + 1] == ' ') by {
                        assert(tail[q] == field@[p + q]);
                        assert(tail[q + 1] == field@[p + q + 1]);
                    }
                    assert(tail[k - p] == field@[k as int]);
                    assert(tail[k - p + 1] == field@[k + 1]);
                    lemma_find_sep_at(tail, k - p);
                }
                let piece = sub_chars(field, p, k);
                let ghost piecev = piece@;
                let s = crate::text::chars_to_string(&piece);
                let ghost prev = r;
                let ghost sv = s@;
                r.push(s);
                proof {
                    crate::text::lemma_deep_view_push(r, prev, sv);
                    let tail = field@.skip(p as int);
                    assert(tail.take(k - p) =~= field@.subrange(p as int, k as int));
                    assert(tail.skip(k - p + 2) =~= field@.skip(k + 2));
                    assert(split_tags(tail) == seq![tail.take(k - p)] + split_tags(
                        field@.skip(k + 2),
                    ));
                    assert(r.deep_view() + split_tags(field@.skip(k + 2)) =~= prev.deep_view()
                        + split_tags(tail));
                    assert(split_tags(field@) =~= r.deep_view() + split_tags(
                        field@.skip(k + 2),
                    ));
                }
                p = k + 2;
            },
            None => {
                proof {
                    let tail = field@.skip(p as int);
                    assert forall|q: int| 0 <= q && q + 2 <= tail.len() implies !((
                    #[trigger] tail[q]) == ',' && tail[q + 1] == ' ') by {
                        assert(tail[q] == field@[p + q]);
                        assert(tail[q + 1] == field@[p + q + 1]);
                    }
                    lemma_find_sep_none(tail);
                    assert(split_tags(tail) == seq![tail]);
                }
                let piece = sub_chars(field, p, field.len());
                let s = crate::text::chars_to_string(&piece);
                let ghost prev = r;
                let ghost sv = s@;
                r.push(s);
                proof {
                    crate::text::lemma_deep_view_push(r, prev, sv);
                    assert(field@.skip(p as int) =~= field@.subrange(
                        p as int,
                        field@.len() as int,
                    ));
                    assert(r.deep_view() =~= prev.deep_view() + seq![field@.skip(p as int)]);
                    assert(split_tags(field@) =~= r.deep_view());
                }
                return r;
            },
        }
    }
    proof {
        assert(false);
    }
    r
}

/// Reads one row at `pos`, exactly as [`spec_parse_row`] describes.
pub fn parse_row_at(v: &Vec<char>, pos: usize) -> (r: Option<(Task, usize)>)
    requires
        pos <= v@.len(),
    ensures
        match r {
            Some((t, e)) => spec_parse_row(v@, pos as int) == Some((t@, e as int)) && pos < e
                <= v@.len(),
            None => spec_parse_row(v@, pos as int) is None,
        },
{
    let (id, p1) = match crate::num::parse_u64(v, pos) {
        Some(x) => x,
        None => {
            return None;
        },
    };
    if !(p1 < v.len() && v[p1] == ',') {
        return None;
    }
    let (status_chars, p2) = match parse_qfield_at(v, p1 + 1) {
        Some(x) => x,
        None => {
            return None;
        },
    };
    if !(p2 < v.len() && v[p2] == ',') {
        return None;
    }
    let (tag_chars, p3) = match parse_qfield_at(v, p2 + 1) {
        Some(x) => x,
        None => {
            return None;
        },
    };
    if !(p3 < v.len() && v[p3] == ',') {
        return None;
    }
    let (descr_chars, p4) = match parse_qfield_at(v, p3 + 1) {
        Some(x) => x,
        None => {
            return None;
        },
    };
    if !(p4 < v.len() && v[p4] == ',') {
        return None;
    }
    let (created_at, p5) = match crate::num::parse_i64(v, p4 + 1) {
        Some(x) => x,
        None => {
            return None;
        },
    };
    if !(p5 < v.len() && v[p5] == ',') {
        return None;
    }
    let status = crate::text::chars_to_string(&status_chars);
    let tags = split_tags_of(&tag_chars);
    let descr = crate::text::chars_to_string(&descr_chars);
    let title = descr.clone();
    if p5 + 1 < v.len() && v[p5 + 1] == '\n' {
        let task = Task {
            id,
            title,
            description: Some(descr),
            tags,
            created_at,
            due_date: None,
            status,
        };
        Some((task, p5 + 2))
    } else {
        let (due, p6) = match crate::num::parse_i64(v, p5 + 1) {
            Some(x) => x,
            None => {
                return None;
            },
        };
        if p6 < v.len() && v[p6] == '\n' {
            let task = Task {
                id,
                title,
                description: Some(descr),
                tags,
                created_at,
                due_date: Some(due),
                status,
            };
            Some((task, p6 + 1))
        } else {
            None
        }
    }
}

/// Reads a whole export, exactly as [`spec_parse_csv`] describes: the
/// imported tasks on success, `None` on any malformed text.
pub fn parse_csv(s: &str) -> (r: Option<Vec<Task>>)
    ensures
        match spec_parse_csv(s@) {
            Some(ts) => r matches Some(out) && out.deep_view() == ts,
            None => r is None,
        },
{
    let v = crate::text::chars_of(s);
    let p0 = match crate::json::expect_lit(&v, 0, "id,status,tag,description,created_at,due_date\n") {
        Some(p) => p,
        None => {
            return None;
        },
    };
    let mut out: Vec<Task> = Vec::new();
    let mut p: usize = p0;
    proof {
        assert(out.deep_view() =~= Seq::<TaskView>::empty());
    }
    while p < v.len()
        invariant
            p <= v@.len(),
            v@ == s@,
            spec_parse_csv(s@) == spec_parse_rows(v@, p as int, out.deep_view()),
        decreases v@.len() - p,
    {
        let (t, e) = match parse_row_at(&v, p) {
            Some(x) => x,
            None => {
                return None;
            },
        };
        let ghost prev = out;
        let ghost tv = t@;
        out.push(t);
        proof {
            crate::text::lemma_deep_view_push(out, prev, tv);
        }
        p = e;
    }
    Some(out)
}

} // verus!
