//! The persisted text form of a task collection: a bracketed list of
//! field-labeled records, one per task, written and read by verified code.
//!
//! `ser_tasks` is the text of a collection; `parse_tasks_spec` reads such a
//! text back, yielding `None` on anything malformed. `lemma_round_trip`
//! proves that reading inverts writing.

use vstd::prelude::*;
use crate::task::{Task, TaskV, tasks_view};
use crate::digits::{
    dec_digits, is_digit, parse_num_at, parse_num, push_dec, lemma_parse_dec_digits,
    lemma_dec_digits,
};
use crate::text::{push_char, chars_to_string};

verus! {

/// The opening of a record up to the id value.
pub open spec fn lit_open() -> Seq<char> {
    seq!['{', '"', 'i', 'd', '"', ':']
}

/// Between the id value and the quoted description.
pub open spec fn lit_desc() -> Seq<char> {
    seq![',', '"', 'd', 'e', 's', 'c', 'r', 'i', 'p', 't', 'i', 'o', 'n', '"', ':', '"']
}

/// Between the description's closing quote and the flag value.
pub open spec fn lit_done() -> Seq<char> {
    seq![',', '"', 'd', 'o', 'n', 'e', '"', ':']
}

pub open spec fn lit_true() -> Seq<char> {
    seq!['t', 'r', 'u', 'e']
}

pub open spec fn lit_false() -> Seq<char> {
    seq!['f', 'a', 'l', 's', 'e']
}

/// The text `lit` stands in `s` at position `i`.
pub open spec fn match_at(s: Seq<char>, i: int, lit: Seq<char>) -> bool {
    0 <= i && i + lit.len() <= s.len() && s.subrange(i, i + lit.len()) == lit
}

/// A description character in the text: quote and backslash get a backslash
/// before them, everything else stands as itself.
pub open spec fn esc_char(c: char) -> Seq<char> {
    if c == '"' || c == '\\' {
        seq!['\\', c]
    } else {
        seq![c]
    }
}

/// A description in the text: each character escaped.
pub open spec fn esc_str(d: Seq<char>) -> Seq<char>
    decreases d.len(),
{
    if d.len() == 0 {
        Seq::empty()
    } else {
        esc_char(d[0]) + esc_str(d.drop_first())
    }
}

/// The text of one task record.
pub open spec fn ser_task(t: TaskV) -> Seq<char> {
    lit_open() + dec_digits(t.id) + lit_desc() + esc_str(t.description) + seq!['"'] + lit_done()
        + (if t.done {
        lit_true()
    } else {
        lit_false()
    }) + seq!['}']
}

/// The comma-separated records of a collection.
pub open spec fn ser_list(ts: Seq<TaskV>) -> Seq<char>
    decreases ts.len(),
{
    if ts.len() == 0 {
        Seq::empty()
    } else if ts.len() == 1 {
        ser_task(ts[0])
    } else {
        ser_task(ts[0]) + seq![','] + ser_list(ts.drop_first())
    }
}

/// The whole text of a collection: the records between brackets.
pub open spec fn ser_tasks(ts: Seq<TaskV>) -> Seq<char> {
    seq!['['] + ser_list(ts) + seq![']']
}

/// A quoted description read from position `i`, the characters read so far
/// in `acc`: ends at an unescaped quote; a backslash must be followed by a
/// quote or a backslash.
pub open spec fn parse_qstr_rec(s: Seq<char>, i: int, acc: Seq<char>) -> Option<(Seq<char>, int)>
    decreases s.len() - i,
    when 0 <= i <= s.len()
{
    if i == s.len() {
        None
    } else if s[i] == '"' {
        Some((acc, i + 1))
    } else if s[i] == '\\' {
        if i + 1 < s.len() && (s[i + 1] == '"' || s[i + 1] == '\\') {
            parse_qstr_rec(s, i + 2, acc.push(s[i + 1]))
        } else {
            None
        }
    } else {
        parse_qstr_rec(s, i + 1, acc.push(s[i]))
    }
}

/// A flag value read at position `i`.
pub open spec fn parse_bool_at(s: Seq<char>, i: int) -> Option<(bool, int)> {
    if match_at(s, i, lit_true()) {
        Some((true, i + 4))
    } else if match_at(s, i, lit_false()) {
        Some((false, i + 5))
    } else {
        None
    }
}

/// One task record read at position `i`.
pub open spec fn parse_task_at(s: Seq<char>, i: int) -> Option<(TaskV, int)> {
    if !match_at(s, i, lit_open()) {
        None
    } else {
        match parse_num_at(s, i + lit_open().len()) {
            None => None,
            Some((n, j)) => if !match_at(s, j, lit_desc()) {
                None
            } else {
                match parse_qstr_rec(s, j + lit_desc().len(), Seq::empty()) {
                    None => None,
                    Some((d, k)) => if !match_at(s, k, lit_done()) {
                        None
                    } else {
                        match parse_bool_at(s, k + lit_done().len()) {
                            None => None,
                            Some((b, m)) => if m < s.len() && s[m] == '}' {
                                Some((TaskV { id: n, description: d, done: b }, m + 1))
                            } else {
                                None
                            },
                        }
                    },
                }
            },
        }
    }
}

/// Records read from position `i` on, those already read in `acc`: records
/// separated by commas, closed by the final bracket.
pub open spec fn parse_list_rec(s: Seq<char>, i: int, acc: Seq<TaskV>) -> Option<
    (Seq<TaskV>, int),
>
    decreases s.len() - i,
    when 0 <= i <= s.len()
{
    match parse_task_at(s, i) {
        None => None,
        Some((t, j)) => if !(i < j <= s.len()) {
            None
        } else if j < s.len() && s[j] == ',' {
            parse_list_rec(s, j + 1, acc.push(t))
        } else if j < s.len() && s[j] == ']' {
            Some((acc.push(t), j + 1))
        } else {
            None
        },
    }
}

/// A whole collection read from a text: the empty brackets, or bracketed
/// records, consuming the text exactly; anything else is malformed.
pub open spec fn parse_tasks_spec(s: Seq<char>) -> Option<Seq<TaskV>> {
    if s.len() == 2 && s[0] == '[' && s[1] == ']' {
        Some(Seq::empty())
    } else if s.len() > 0 && s[0] == '[' {
        match parse_list_rec(s, 1, Seq::empty()) {
            Some((ts, j)) => if j == s.len() {
                Some(ts)
            } else {
                None
            },
            None => None,
        }
    } else {
        None
    }
}

/// Escaping one more character appends its escape.
pub proof fn lemma_esc_str_push(d: Seq<char>, c: char)
    ensures
        esc_str(d.push(c)) == esc_str(d) + esc_char(c),
    decreases d.len(),
{
    assert(d.push(c)[0] == if d.len() == 0 {
        c
    } else {
        d[0]
    });
    if d.len() == 0 {
        assert(d.push(c) =~= seq![c]);
        assert(seq![c].drop_first() =~= Seq::<char>::empty());
        assert(esc_str(seq![c]) == esc_char(c) + esc_str(Seq::<char>::empty()));
        assert(esc_char(c) + Seq::<char>::empty() =~= Seq::<char>::empty() + esc_char(c));
    } else {
        assert(d.push(c).drop_first() =~= d.drop_first().push(c));
        lemma_esc_str_push(d.drop_first(), c);
        assert(esc_char(d[0]) + (esc_str(d.drop_first()) + esc_char(c)) =~= (esc_char(d[0])
            + esc_str(d.drop_first())) + esc_char(c));
    }
}

/// Where `a + b` sits in `s` at position `i`, `a` sits at `i` and `b` right
/// after it.
proof fn lemma_split_at(s: Seq<char>, i: int, a: Seq<char>, b: Seq<char>)
    requires
        0 <= i,
        i + a.len() + b.len() <= s.len(),
        s.subrange(i, i + a.len() + b.len()) == a + b,
    ensures
        s.subrange(i, i + a.len() as int) == a,
        s.subrange(i + a.len(), i + a.len() + b.len()) == b,
{
    let w = s.subrange(i, i + a.len() + b.len());
    assert(s.subrange(i, i + a.len() as int) =~= a) by {
        assert(forall|k: int|
            0 <= k < a.len() ==> #[trigger] s.subrange(i, i + a.len() as int)[k] == w[k]);
    }
    assert(s.subrange(i + a.len(), i + a.len() + b.len()) =~= b) by {
        assert(forall|k: int|
            0 <= k < b.len() ==> #[trigger] s.subrange(i + a.len(), i + a.len() + b.len())[k]
                == w[a.len() + k]);
    }
}

/// Reading a quoted description inverts escaping: wherever the escaped text
/// of `d` sits in `s` followed by a quote, the description read there is `d`.
pub proof fn lemma_parse_esc(s: Seq<char>, i: int, d: Seq<char>, acc: Seq<char>)
    requires
        0 <= i,
        i + esc_str(d).len() + 1 <= s.len(),
        s.subrange(i, i + esc_str(d).len()) == esc_str(d),
        s[i + esc_str(d).len()] == '"',
    ensures
        parse_qstr_rec(s, i, acc) == Some((acc + d, i + esc_str(d).len() + 1)),
    decreases d.len(),
{
    if d.len() == 0 {
        assert(acc + d =~= acc);
    } else {
        let e = esc_char(d[0]);
        let rest = esc_str(d.drop_first());
        assert(esc_str(d) == e + rest);
        lemma_split_at(s, i, e, rest);
        let i2 = i + e.len();
        assert(s[i] == e[0]) by {
            assert(s.subrange(i, i + e.len() as int)[0] == s[i]);
        }
        if e.len() == 2 {
            assert(s[i + 1] == e[1]) by {
                assert(s.subrange(i, i + e.len() as int)[1] == s[i + 1]);
            }
        }
        lemma_parse_esc(s, i2, d.drop_first(), acc.push(d[0]));
        assert(acc.push(d[0]) + d.drop_first() =~= acc + d);
    }
}

/// Reading a record inverts writing one: wherever the text of `t` sits in
/// `s`, the task read there is `t`.
pub proof fn lemma_parse_ser_task(s: Seq<char>, i: int, t: TaskV)
    requires
        0 <= i,
        t.id <= usize::MAX as nat,
        i + ser_task(t).len() <= s.len(),
        s.subrange(i, i + ser_task(t).len()) == ser_task(t),
    ensures
        parse_task_at(s, i) == Some((t, i + ser_task(t).len())),
{
    let bd = dec_digits(t.id);
    let de = esc_str(t.description);
    let bl = if t.done {
        lit_true()
    } else {
        lit_false()
    };
    let q = seq!['"'];
    let g = seq!['}'];
    lemma_dec_digits(t.id);
    let p1 = i + 6;
    let p2 = p1 + bd.len();
    let p3 = p2 + 16;
    let p4 = p3 + de.len() + 1;
    let p5 = p4 + 8;
    let p6 = p5 + bl.len();
    let x1 = lit_open() + bd;
    let x2 = x1 + lit_desc();
    let x3 = x2 + de;
    let x4 = x3 + q;
    let x5 = x4 + lit_done();
    let x6 = x5 + bl;
    assert(ser_task(t) == x6 + g);
    lemma_split_at(s, i, x6, g);
    lemma_split_at(s, i, x5, bl);
    lemma_split_at(s, i, x4, lit_done());
    lemma_split_at(s, i, x3, q);
    lemma_split_at(s, i, x2, de);
    lemma_split_at(s, i, x1, lit_desc());
    lemma_split_at(s, i, lit_open(), bd);
    assert(match_at(s, i, lit_open()));
    assert(s[p2] == ',') by {
        assert(s.subrange(p2, p3)[0] == s[p2]);
    }
    assert(!is_digit(','));
    lemma_parse_dec_digits(s, p1, t.id);
    assert(match_at(s, p2, lit_desc()));
    assert(s[p3 + de.len()] == '"') by {
        assert(s.subrange(p4 - 1, p4)[0] == s[p4 - 1]);
    }
    lemma_parse_esc(s, p3, t.description, Seq::empty());
    assert(Seq::<char>::empty() + t.description =~= t.description);
    assert(match_at(s, p4, lit_done()));
    if t.done {
        assert(match_at(s, p5, lit_true()));
        assert(parse_bool_at(s, p5) == Some((true, p5 + 4)));
    } else {
        assert(s[p5] == 'f') by {
            assert(s.subrange(p5, p5 + 5)[0] == s[p5]);
        }
        assert(!match_at(s, p5, lit_true())) by {
            if match_at(s, p5, lit_true()) {
                assert(s.subrange(p5, p5 + 4)[0] == s[p5]);
            }
        }
        assert(match_at(s, p5, lit_false()));
        assert(parse_bool_at(s, p5) == Some((false, p5 + 5)));
    }
    assert(s[p6] == '}') by {
        assert(s.subrange(p6, p6 + 1)[0] == s[p6]);
    }
    assert(TaskV { id: t.id, description: t.description, done: t.done } == t);
    assert(parse_task_at(s, i) == Some((t, p6 + 1)));
}

/// Reading the records of a list inverts writing them: wherever the text of
/// a non-empty `ts` sits in `s` followed by the closing bracket, the tasks
/// read there are `ts`.
pub proof fn lemma_parse_ser_list(s: Seq<char>, i: int, ts: Seq<TaskV>, acc: Seq<TaskV>)
    requires
        0 <= i,
        ts.len() >= 1,
        forall|k: int| 0 <= k < ts.len() ==> #[trigger] ts[k].id <= usize::MAX as nat,
        i + ser_list(ts).len() + 1 <= s.len(),
        s.subrange(i, i + ser_list(ts).len()) == ser_list(ts),
        s[i + ser_list(ts).len()] == ']',
    ensures
        parse_list_rec(s, i, acc) == Some((acc + ts, i + ser_list(ts).len() + 1)),
    decreases ts.len(),
{
    let first = ser_task(ts[0]);
    lemma_dec_digits(ts[0].id);
    if ts.len() == 1 {
        assert(ser_list(ts) == first);
        lemma_parse_ser_task(s, i, ts[0]);
        let j = i + first.len();
        assert(s[j] == ']');
        assert(acc.push(ts[0]) =~= acc + ts);
    } else {
        let rest = ser_list(ts.drop_first());
        let fc = first + seq![','];
        assert(ser_list(ts) == fc + rest);
        lemma_split_at(s, i, fc, rest);
        lemma_split_at(s, i, first, seq![',']);
        lemma_parse_ser_task(s, i, ts[0]);
        let j = i + first.len();
        assert(s[j] == ',') by {
            assert(s.subrange(j, j + 1)[0] == s[j]);
        }
        assert(forall|k: int|
            0 <= k < ts.drop_first().len() ==> #[trigger] ts.drop_first()[k].id
                <= usize::MAX as nat);
        lemma_parse_ser_list(s, j + 1, ts.drop_first(), acc.push(ts[0]));
        assert(acc.push(ts[0]) + ts.drop_first() =~= acc + ts);
    }
}

/// Law: reading back the written text of any collection yields that
/// collection again, record for record, field for field.
pub proof fn lemma_round_trip(ts: Seq<TaskV>)
    requires
        forall|k: int| 0 <= k < ts.len() ==> #[trigger] ts[k].id <= usize::MAX as nat,
    ensures
        parse_tasks_spec(ser_tasks(ts)) == Some(ts),
{
    let s = ser_tasks(ts);
    if ts.len() == 0 {
        assert(s.len() == 2);
        assert(s[0] == '[');
        assert(s[1] == ']');
    } else {
        lemma_dec_digits(ts[0].id);
        assert(ser_list(ts).len() >= ser_task(ts[0]).len());
        assert(s.len() == ser_list(ts).len() + 2);
        let pre = seq!['['] + ser_list(ts);
        assert(s == pre + seq![']']);
        assert(s.subrange(0, s.len() as int) =~= s);
        lemma_split_at(s, 0, pre, seq![']']);
        lemma_split_at(s, 0, seq!['['], ser_list(ts));
        assert(s[0] == '[') by {
            assert(s.subrange(0, 1)[0] == s[0]);
        }
        assert(s[1 + ser_list(ts).len() as int] == ']') by {
            assert(s.subrange(pre.len() as int, s.len() as int)[0] == s[pre.len() as int]);
        }
        lemma_parse_ser_list(s, 1, ts, Seq::empty());
        assert(Seq::<TaskV>::empty() + ts =~= ts);
    }
}

/// Law, at the level of the stored tasks: the text written for any task
/// collection reads back to exactly that collection.
pub proof fn lemma_save_load(tasks: Seq<Task>)
    ensures
        parse_tasks_spec(ser_tasks(tasks_view(tasks))) == Some(tasks_view(tasks)),
{
    assert(forall|k: int|
        0 <= k < tasks_view(tasks).len() ==> #[trigger] tasks_view(tasks)[k].id
            <= usize::MAX as nat);
    lemma_round_trip(tasks_view(tasks));
}

/// One more record at the end of the text extends the list with a comma.
pub proof fn lemma_ser_list_push(ts: Seq<TaskV>, t: TaskV)
    ensures
        ser_list(ts.push(t)) == if ts.len() == 0 {
            ser_task(t)
        } else {
            ser_list(ts) + seq![','] + ser_task(t)
        },
    decreases ts.len(),
{
    let p = ts.push(t);
    assert(p[0] == if ts.len() == 0 {
        t
    } else {
        ts[0]
    });
    if ts.len() == 0 {
    } else if ts.len() == 1 {
        assert(p.drop_first() =~= seq![t]);
        assert(ser_list(seq![t]) == ser_task(t));
        assert(ser_task(ts[0]) + seq![','] + ser_task(t) =~= ser_task(ts[0]) + (seq![',']
            + ser_task(t)));
    } else {
        assert(p.drop_first() =~= ts.drop_first().push(t));
        lemma_ser_list_push(ts.drop_first(), t);
        assert(ser_task(ts[0]) + seq![','] + (ser_list(ts.drop_first()) + seq![','] + ser_task(t))
            =~= (ser_task(ts[0]) + seq![','] + ser_list(ts.drop_first())) + seq![','] + ser_task(
            t,
        ));
    }
}

/// Appends every character of `lit` to `out`.
fn push_lit(out: &mut String, lit: &Vec<char>)
    ensures
        final(out)@ == old(out)@ + lit@,
{
    let n = lit.len();
    let mut k: usize = 0;
    while k < n
        invariant
            n == lit@.len(),
            k <= n,
            out@ == old(out)@ + lit@.take(k as int),
        decreases n - k,
    {
        push_char(out, lit[k]);
        proof {
            assert(out@ =~= old(out)@ + lit@.take(k + 1));
        }
        k += 1;
    }
    proof {
        assert(old(out)@ + lit@.take(n as int) =~= old(out)@ + lit@);
    }
}

fn lit_open_vec() -> (v: Vec<char>)
    ensures
        v@ == lit_open(),
{
    let mut v: Vec<char> = Vec::new();
    v.push('{');
    v.push('"');
    v.push('i');
    v.push('d');
    v.push('"');
    v.push(':');
    proof {
        assert(v@ =~= lit_open());
    }
    v
}

fn lit_desc_vec() -> (v: Vec<char>)
    ensures
        v@ == lit_desc(),
{
    let mut v: Vec<char> = Vec::new();
    v.push(',');
    v.push('"');
    v.push('d');
    v.push('e');
    v.push('s');
    v.push('c');
    v.push('r');
    v.push('i');
    v.push('p');
    v.push('t');
    v.push('i');
    v.push('o');
    v.push('n');
    v.push('"');
    v.push(':');
    v.push('"');
    proof {
        assert(v@ =~= lit_desc());
    }
    v
}

fn lit_done_vec() -> (v: Vec<char>)
    ensures
        v@ == lit_done(),
{
    let mut v: Vec<char> = Vec::new();
    v.push(',');
    v.push('"');
    v.push('d');
    v.push('o');
    v.push('n');
    v.push('e');
    v.push('"');
    v.push(':');
    proof {
        assert(v@ =~= lit_done());
    }
    v
}

fn lit_true_vec() -> (v: Vec<char>)
    ensures
        v@ == lit_true(),
{
    let mut v: Vec<char> = Vec::new();
    v.push('t');
    v.push('r');
    v.push('u');
    v.push('e');
    proof {
        assert(v@ =~= lit_true());
    }
    v
}

fn lit_false_vec() -> (v: Vec<char>)
    ensures
        v@ == lit_false(),
{
    let mut v: Vec<char> = Vec::new();
    v.push('f');
    v.push('a');
    v.push('l');
    v.push('s');
    v.push('e');
    proof {
        assert(v@ =~= lit_false());
    }
    v
}

/// Appends the text of one task record to `out`.
fn push_task(out: &mut String, t: &Task)
    ensures
        final(out)@ == old(out)@ + ser_task(t@),
{
    let open = lit_open_vec();
    push_lit(out, &open);
    push_dec(out, t.id);
    let desc = lit_desc_vec();
    push_lit(out, &desc);
    let d = t.description.as_str();
    let n = d.unicode_len();
    let ghost mid = out@;
    let mut k: usize = 0;
    while k < n
        invariant
            n == d@.len(),
            k <= n,
            out@ == mid + esc_str(d@.take(k as int)),
        decreases n - k,
    {
        let c = d.get_char(k);
        proof {
            lemma_esc_str_push(d@.take(k as int), c);
            assert(d@.take(k + 1) =~= d@.take(k as int).push(c));
        }
        if c == '"' || c == '\\' {
            push_char(out, '\\');
            push_char(out, c);
            proof {
                assert(out@ =~= mid + esc_str(d@.take(k + 1)));
            }
        } else {
            push_char(out, c);
            proof {
                assert(out@ =~= mid + esc_str(d@.take(k + 1)));
            }
        }
        k += 1;
    }
    proof {
        assert(d@.take(n as int) =~= d@);
    }
    push_char(out, '"');
    let done = lit_done_vec();
    push_lit(out, &done);
    if t.done {
        let w = lit_true_vec();
        push_lit(out, &w);
    } else {
        let w = lit_false_vec();
        push_lit(out, &w);
    }
    push_char(out, '}');
    proof {
        assert(out@ =~= old(out)@ + ser_task(t@));
    }
}

/// The whole text of the collection, ready to be persisted.
pub fn save_to_string(tasks: &Vec<Task>) -> (s: String)
    ensures
        s@ == ser_tasks(tasks_view(tasks@)),
{
    let ghost view = tasks_view(tasks@);
    let mut out = String::new();
    push_char(&mut out, '[');
    let n = tasks.len();
    let mut i: usize = 0;
    while i < n
        invariant
            n == tasks@.len(),
            i <= n,
            view == tasks_view(tasks@),
            out@ == seq!['['] + ser_list(view.take(i as int)),
        decreases n - i,
    {
        if i > 0 {
            push_char(&mut out, ',');
        }
        push_task(&mut out, &tasks[i]);
        proof {
            assert(view[i as int] == tasks@[i as int]@);
            assert(view.take(i + 1) =~= view.take(i as int).push(view[i as int]));
            lemma_ser_list_push(view.take(i as int), view[i as int]);
            assert(out@ =~= seq!['['] + ser_list(view.take(i + 1)));
        }
        i += 1;
    }
    push_char(&mut out, ']');
    proof {
        assert(view.take(n as int) =~= view);
        assert(out@ =~= ser_tasks(view));
    }
    out
}

/// The display line of a task: its id, its flag, a dash, its description.
pub open spec fn render_line(t: TaskV) -> Seq<char> {
    dec_digits(t.id) + seq![' '] + (if t.done {
        lit_true()
    } else {
        lit_false()
    }) + seq![' ', '-', ' '] + t.description
}

/// One task as a display line.
pub fn render_task(t: &Task) -> (s: String)
    ensures
        s@ == render_line(t@),
{
    let mut out = String::new();
    push_dec(&mut out, t.id);
    push_char(&mut out, ' ');
    if t.done {
        let w = lit_true_vec();
        push_lit(&mut out, &w);
    } else {
        let w = lit_false_vec();
        push_lit(&mut out, &w);
    }
    push_char(&mut out, ' ');
    push_char(&mut out, '-');
    push_char(&mut out, ' ');
    out.append(t.description.as_str());
    proof {
        assert(out@ =~= render_line(t@));
    }
    out
}

/// The characters of `s`, in order.
fn str_to_chars(s: &str) -> (v: Vec<char>)
    ensures
        v@ == s@,
{
    let n = s.unicode_len();
    let mut v: Vec<char> = Vec::new();
    let mut k: usize = 0;
    while k < n
        invariant
            n == s@.len(),
            k <= n,
            v@ == s@.take(k as int),
        decreases n - k,
    {
        let c = s.get_char(k);
        v.push(c);
        proof {
            assert(v@ =~= s@.take(k + 1));
        }
        k += 1;
    }
    proof {
        assert(s@.take(n as int) =~= s@);
    }
    v
}

/// Whether `lit` stands in `s` at position `i`; the executable form of
/// `match_at`.
fn match_lit(s: &Vec<char>, i: usize, lit: &Vec<char>) -> (b: bool)
    requires
        i <= s@.len(),
    ensures
        b == match_at(s@, i as int, lit@),
{
    let n = s.len();
    let m = lit.len();
    if n - i < m {
        return false;
    }
    let mut k: usize = 0;
    while k < m
        invariant
            n == s@.len(),
            m == lit@.len(),
            i + m <= n,
            k <= m,
            forall|x: int| 0 <= x < k ==> s@[i + x] == lit@[x],
        decreases m - k,
    {
        if s[i + k] != lit[k] {
            proof {
                assert(!match_at(s@, i as int, lit@)) by {
                    if match_at(s@, i as int, lit@) {
                        assert(s@.subrange(i as int, i + lit@.len())[k as int] == s@[i + k]);
                    }
                }
            }
            return false;
        }
        k += 1;
    }
    proof {
        assert(s@.subrange(i as int, i + lit@.len()) =~= lit@);
    }
    true
}

/// Reads a quoted description at position `i`; the executable form of
/// `parse_qstr_rec`.
fn parse_qstr(s: &Vec<char>, i: usize) -> (r: Option<(Vec<char>, usize)>)
    requires
        i <= s@.len(),
    ensures
        match r {
            Some((d, j)) => parse_qstr_rec(s@, i as int, Seq::empty()) == Some((d@, j as int)) && i
                < j <= s@.len(),
            None => parse_qstr_rec(s@, i as int, Seq::empty()) is None,
        },
{
    let n = s.len();
    let mut cur: usize = i;
    let mut acc: Vec<char> = Vec::new();
    while cur < n
        invariant
            n == s@.len(),
            i <= cur <= n,
            parse_qstr_rec(s@, i as int, Seq::empty()) == parse_qstr_rec(s@, cur as int, acc@),
        decreases n - cur,
    {
        let c = s[cur];
        if c == '"' {
            return Some((acc, cur + 1));
        } else if c == '\\' {
            if cur + 1 < n {
                let e = s[cur + 1];
                if e == '"' || e == '\\' {
                    acc.push(e);
                    cur = cur + 2;
                } else {
                    return None;
                }
            } else {
                return None;
            }
        } else {
            acc.push(c);
            cur = cur + 1;
        }
    }
    None
}

/// Reads a flag value at position `i`; the executable form of
/// `parse_bool_at`.
fn parse_bool(s: &Vec<char>, i: usize) -> (r: Option<(bool, usize)>)
    requires
        i <= s@.len(),
    ensures
        match r {
            Some((b, j)) => parse_bool_at(s@, i as int) == Some((b, j as int)) && i < j <= s@.len(),
            None => parse_bool_at(s@, i as int) is None,
        },
{
    // Binding the length teaches the prover that positions in `s` fit the
    // machine, which the additions below need.
    let _n = s.len();
    let t = lit_true_vec();
    if match_lit(s, i, &t) {
        return Some((true, i + 4));
    }
    let f = lit_false_vec();
    if match_lit(s, i, &f) {
        return Some((false, i + 5));
    }
    None
}

/// Reads one task record at position `i`; the executable form of
/// `parse_task_at`.
fn parse_task(s: &Vec<char>, i: usize) -> (r: Option<(Task, usize)>)
    requires
        i <= s@.len(),
    ensures
        match r {
            Some((t, j)) => parse_task_at(s@, i as int) == Some((t@, j as int)) && i < j
                <= s@.len(),
            None => parse_task_at(s@, i as int) is None,
        },
{
    let n = s.len();
    let open = lit_open_vec();
    if !match_lit(s, i, &open) {
        return None;
    }
    let p1 = i + 6;
    let (id, p2) = match parse_num(s, p1) {
        Some(v) => v,
        None => {
            return None;
        },
    };
    let desc_lit = lit_desc_vec();
    if !match_lit(s, p2, &desc_lit) {
        return None;
    }
    let p3 = p2 + 16;
    let (d, p4) = match parse_qstr(s, p3) {
        Some(v) => v,
        None => {
            return None;
        },
    };
    let done_lit = lit_done_vec();
    if !match_lit(s, p4, &done_lit) {
        return None;
    }
    let p5 = p4 + 8;
    let (b, p6) = match parse_bool(s, p5) {
        Some(v) => v,
        None => {
            return None;
        },
    };
    if p6 < n && s[p6] == '}' {
        let description = chars_to_string(&d);
        Some((Task { id, description, done: b }, p6 + 1))
    } else {
        None
    }
}

/// Reads a whole collection back from its persisted text; anything malformed
/// yields the empty collection.
pub fn load_from_string(s: &str) -> (r: Vec<Task>)
    ensures
        tasks_view(r@) == match parse_tasks_spec(s@) {
            Some(ts) => ts,
            None => Seq::<TaskV>::empty(),
        },
{
    let chars = str_to_chars(s);
    let n = chars.len();
    proof {
        assert(tasks_view(Seq::<Task>::empty()) =~= Seq::<TaskV>::empty());
    }
    if n == 2 && chars[0] == '[' && chars[1] == ']' {
        return Vec::new();
    }
    if n == 0 || chars[0] != '[' {
        return Vec::new();
    }
    let mut cur: usize = 1;
    let mut acc: Vec<Task> = Vec::new();
    while cur <= n
        invariant
            n == chars@.len(),
            chars@ == s@,
            1 <= cur <= n,
            s@[0] == '[',
            !(s@.len() == 2 && s@[1] == ']'),
            parse_list_rec(s@, 1, Seq::empty()) == parse_list_rec(s@, cur as int, tasks_view(acc@)),
        decreases n - cur,
    {
        let (t, j) = match parse_task(&chars, cur) {
            Some(v) => v,
            None => {
                return Vec::new();
            },
        };
        proof {
            assert(tasks_view(acc@.push(t)) =~= tasks_view(acc@).push(t@));
        }
        acc.push(t);
        if j < n && chars[j] == ',' {
            cur = j + 1;
        } else if j < n && chars[j] == ']' {
            if j + 1 == n {
                return acc;
            } else {
                return Vec::new();
            }
        } else {
            return Vec::new();
        }
    }
    Vec::new()
}

} // verus!
