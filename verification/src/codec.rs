//! The record format of the two store files. A task is one line of
//! seven tab-separated fields (id, description, context, clock, image,
//! sound, creation time); a context is one line holding its name. String
//! fields are escaped, so a record never contains a raw tab or newline,
//! and every line ends with a newline. Decoding is proved to undo
//! encoding, which is what makes reloading a store faithful. The format
//! is this library's own: a store file written in any other notation
//! does not decode, and loading it fails rather than dropping records.

use vstd::prelude::*;
use vstd::string::StrSliceExecFns;

use crate::clock::ClockType;
use crate::task::{Task, TaskView};
use crate::textenc::{
    dec_digits, enc_i64, esc, is_digit, parse_dec, parse_i64, unesc, lemma_esc_no_sep,
    lemma_unesc_esc, lemma_parse_enc_i64, lemma_enc_i64_plain, lemma_dec_digits_value,
};

verus! {

// ---------------------------------------------------------------------
// Splitting a string on a separator character.
// ---------------------------------------------------------------------

/// The parts of `s` between occurrences of `c`: always one more part
/// than there are separators, so the empty string has one empty part.
pub open spec fn split_char(s: Seq<char>, c: char) -> Seq<Seq<char>>
    decreases s.len(),
{
    if s.len() == 0 {
        seq![Seq::<char>::empty()]
    } else if s[0] == c {
        seq![Seq::<char>::empty()] + split_char(s.drop_first(), c)
    } else {
        let rest = split_char(s.drop_first(), c);
        seq![seq![s[0]] + rest[0]] + rest.drop_first()
    }
}

pub proof fn lemma_split_len(s: Seq<char>, c: char)
    ensures
        split_char(s, c).len() >= 1,
    decreases s.len(),
{
    if s.len() > 0 {
        lemma_split_len(s.drop_first(), c);
    }
}

/// A string without the separator is a single part.
pub proof fn lemma_split_alone(a: Seq<char>, c: char)
    requires
        forall|i: int| 0 <= i < a.len() ==> a[i] != c,
    ensures
        split_char(a, c) == seq![a],
    decreases a.len(),
{
    if a.len() == 0 {
        assert(split_char(a, c) =~~= seq![a]);
    } else {
        lemma_split_alone(a.drop_first(), c);
        let rest = split_char(a.drop_first(), c);
        assert(rest[0] == a.drop_first());
        assert(seq![a[0]] + a.drop_first() =~= a);
        assert(rest.drop_first() =~= Seq::<Seq<char>>::empty());
        assert(split_char(a, c) =~~= seq![a]);
    }
}

/// Splitting takes off the first separator-free part.
pub proof fn lemma_split_prefix(a: Seq<char>, b: Seq<char>, c: char)
    requires
        forall|i: int| 0 <= i < a.len() ==> a[i] != c,
    ensures
        split_char(a + seq![c] + b, c) == seq![a] + split_char(b, c),
    decreases a.len(),
{
    let s = a + seq![c] + b;
    if a.len() == 0 {
        assert(s[0] == c);
        assert(s.drop_first() =~= b);
        assert(seq![a] =~~= seq![Seq::<char>::empty()]);
        assert(split_char(s, c) =~~= seq![a] + split_char(b, c));
    } else {
        assert(s[0] == a[0]);
        assert(s[0] != c);
        assert(s.drop_first() =~= a.drop_first() + seq![c] + b);
        lemma_split_prefix(a.drop_first(), b, c);
        let rest = split_char(s.drop_first(), c);
        assert(rest == seq![a.drop_first()] + split_char(b, c));
        assert(rest[0] == a.drop_first());
        assert(seq![s[0]] + a.drop_first() =~= a);
        assert(rest.drop_first() =~= split_char(b, c));
        assert(split_char(s, c) =~~= seq![a] + split_char(b, c));
    }
}

// ---------------------------------------------------------------------
// Field encodings: optional strings and clocks.
// ---------------------------------------------------------------------

/// An optional string: `0` for absent, `1` followed by the escaped
/// string for present.
pub open spec fn enc_opt(o: Option<Seq<char>>) -> Seq<char> {
    match o {
        None => seq!['0'],
        Some(s) => seq!['1'] + esc(s),
    }
}

pub open spec fn parse_opt(s: Seq<char>) -> Option<Option<Seq<char>>> {
    if s.len() == 0 {
        None
    } else if s[0] == '0' {
        if s.len() == 1 {
            Some(None)
        } else {
            None
        }
    } else if s[0] == '1' {
        match unesc(s.drop_first()) {
            Some(v) => Some(Some(v)),
            None => None,
        }
    } else {
        None
    }
}

/// A clock: `o` and a signed timestamp for a one-shot clock, `d` and
/// `hour:minute` for a daily clock, `p` and a period in seconds for a
/// periodic clock.
pub open spec fn enc_clock(c: ClockType) -> Seq<char> {
    match c {
        ClockType::Once(fire_at) => seq!['o'] + enc_i64(fire_at as int),
        ClockType::OncePerDay(hour, minute) => seq!['d'] + dec_digits(hour as nat) + seq![':']
            + dec_digits(minute as nat),
        ClockType::Period(secs) => seq!['p'] + dec_digits(secs as nat),
    }
}

pub open spec fn parse_clock(s: Seq<char>) -> Option<ClockType> {
    if s.len() == 0 {
        None
    } else if s[0] == 'o' {
        match parse_i64(s.drop_first()) {
            Some(fire_at) => Some(ClockType::Once(fire_at)),
            None => None,
        }
    } else if s[0] == 'p' {
        match parse_dec(s.drop_first()) {
            Some(secs) => Some(ClockType::Period(secs)),
            None => None,
        }
    } else if s[0] == 'd' {
        let parts = split_char(s.drop_first(), ':');
        if parts.len() == 2 {
            match (parse_dec(parts[0]), parse_dec(parts[1])) {
                (Some(hour), Some(minute)) => if hour <= 255 && minute <= 255 {
                    Some(ClockType::OncePerDay(hour as u8, minute as u8))
                } else {
                    None
                },
                _ => None,
            }
        } else {
            None
        }
    } else {
        None
    }
}

/// No separator characters inside a field.
pub open spec fn no_sep(s: Seq<char>) -> bool {
    forall|i: int| 0 <= i < s.len() ==> s[i] != '\t' && s[i] != '\n'
}

pub proof fn lemma_esc_is_no_sep(s: Seq<char>)
    ensures
        no_sep(esc(s)),
{
    lemma_esc_no_sep(s);
}

pub proof fn lemma_enc_opt_no_sep(o: Option<Seq<char>>)
    ensures
        no_sep(enc_opt(o)),
{
    match o {
        None => {
            assert(no_sep(seq!['0']));
        },
        Some(s) => {
            lemma_esc_no_sep(s);
            assert forall|i: int| 0 <= i < enc_opt(o).len() implies enc_opt(o)[i] != '\t'
                && enc_opt(o)[i] != '\n' by {
                if i == 0 {
                    assert(enc_opt(o)[i] == '1');
                } else {
                    assert(enc_opt(o)[i] == esc(s)[i - 1]);
                }
            }
        },
    }
}

proof fn lemma_digits_benign(n: nat)
    ensures
        forall|i: int|
            0 <= i < dec_digits(n).len() ==> dec_digits(n)[i] != '\t' && dec_digits(n)[i] != '\n'
                && dec_digits(n)[i] != ':',
{
    lemma_dec_digits_value(n);
    assert forall|i: int|
        0 <= i < dec_digits(n).len() implies dec_digits(n)[i] != '\t' && dec_digits(n)[i] != '\n'
        && dec_digits(n)[i] != ':' by {
        assert(is_digit(dec_digits(n)[i]));
        assert('\t' as u32 == 9 && '\n' as u32 == 10 && ':' as u32 == 58);
    }
}

pub proof fn lemma_enc_clock_no_sep(c: ClockType)
    ensures
        no_sep(enc_clock(c)),
{
    match c {
        ClockType::Once(fire_at) => {
            lemma_enc_i64_plain(fire_at as int);
            assert forall|i: int| 0 <= i < enc_clock(c).len() implies enc_clock(c)[i] != '\t'
                && enc_clock(c)[i] != '\n' by {
                if i > 0 {
                    assert(enc_clock(c)[i] == enc_i64(fire_at as int)[i - 1]);
                }
            }
        },
        ClockType::OncePerDay(hour, minute) => {
            lemma_digits_benign(hour as nat);
            lemma_digits_benign(minute as nat);
            let h = dec_digits(hour as nat);
            let m = dec_digits(minute as nat);
            assert forall|i: int| 0 <= i < enc_clock(c).len() implies enc_clock(c)[i] != '\t'
                && enc_clock(c)[i] != '\n' by {
                let e = enc_clock(c);
                if i == 0 {
                    assert(e[i] == 'd');
                } else if i <= h.len() {
                    assert(e[i] == h[i - 1]);
                } else if i == h.len() + 1 {
                    assert(e[i] == ':');
                } else {
                    assert(e[i] == m[i - h.len() - 2]);
                }
            }
        },
        ClockType::Period(secs) => {
            lemma_digits_benign(secs as nat);
            assert forall|i: int| 0 <= i < enc_clock(c).len() implies enc_clock(c)[i] != '\t'
                && enc_clock(c)[i] != '\n' by {
                if i > 0 {
                    assert(enc_clock(c)[i] == dec_digits(secs as nat)[i - 1]);
                }
            }
        },
    }
}

pub proof fn lemma_parse_enc_opt(o: Option<Seq<char>>)
    ensures
        parse_opt(enc_opt(o)) == Some(o),
{
    match o {
        None => {
            assert(enc_opt(o)[0] == '0');
            assert(enc_opt(o).len() == 1);
        },
        Some(s) => {
            lemma_unesc_esc(s);
            assert(enc_opt(o)[0] == '1');
            assert('1' as u32 == 49 && '0' as u32 == 48);
            assert(enc_opt(o).drop_first() =~= esc(s));
        },
    }
}

pub proof fn lemma_parse_enc_clock(c: ClockType)
    ensures
        parse_clock(enc_clock(c)) == Some(c),
{
    let e = enc_clock(c);
    match c {
        ClockType::Once(fire_at) => {
            assert(e[0] == 'o');
            assert(e.drop_first() =~= enc_i64(fire_at as int));
            lemma_parse_enc_i64(fire_at);
        },
        ClockType::OncePerDay(hour, minute) => {
            assert(e[0] == 'd');
            assert('d' as u32 == 100 && 'o' as u32 == 111 && 'p' as u32 == 112);
            let h = dec_digits(hour as nat);
            let m = dec_digits(minute as nat);
            lemma_dec_digits_value(hour as nat);
            lemma_dec_digits_value(minute as nat);
            lemma_digits_benign(hour as nat);
            lemma_digits_benign(minute as nat);
            assert(e.drop_first() =~= h + seq![':'] + m);
            lemma_split_prefix(h, m, ':');
            lemma_split_alone(m, ':');
            let parts = split_char(e.drop_first(), ':');
            assert(parts =~~= seq![h, m]);
            assert(parse_dec(h) == Some(hour as u64));
            assert(parse_dec(m) == Some(minute as u64));
        },
        ClockType::Period(secs) => {
            assert(e[0] == 'p');
            assert('p' as u32 == 112 && 'o' as u32 == 111);
            assert(e.drop_first() =~= dec_digits(secs as nat));
            lemma_dec_digits_value(secs as nat);
        },
    }
}

// ---------------------------------------------------------------------
// Task records.
// ---------------------------------------------------------------------

/// One task as a line of seven tab-separated fields.
pub open spec fn enc_task(t: TaskView) -> Seq<char> {
    esc(t.task_id) + seq!['\t'] + esc(t.description) + seq!['\t'] + esc(t.context) + seq!['\t']
        + enc_clock(t.clock_type) + seq!['\t'] + enc_opt(t.image_path) + seq!['\t'] + enc_opt(
        t.sound_path,
    ) + seq!['\t'] + enc_i64(t.created_at)
}

/// The task a line denotes, or `None` for a malformed line.
pub open spec fn parse_task(line: Seq<char>) -> Option<TaskView> {
    let fs = split_char(line, '\t');
    if fs.len() == 7 {
        match (unesc(fs[0]), unesc(fs[1]), unesc(fs[2]), parse_clock(fs[3]), parse_opt(fs[4]),
        parse_opt(fs[5]), parse_i64(fs[6])) {
            (
                Some(task_id),
                Some(description),
                Some(context),
                Some(clock_type),
                Some(image_path),
                Some(sound_path),
                Some(created_at),
            ) => Some(
                TaskView {
                    created_at: created_at as int,
                    description,
                    task_id,
                    clock_type,
                    context,
                    image_path,
                    sound_path,
                },
            ),
            _ => None,
        }
    } else {
        None
    }
}

/// A task view whose creation time fits the machine integer it is
/// stored in. Every view of an executable task satisfies this.
pub open spec fn task_view_wf(t: TaskView) -> bool {
    i64::MIN <= t.created_at <= i64::MAX
}

/// Splitting the seven joined fields of a task record recovers them.
proof fn lemma_split7(line: Seq<char>, f0: Seq<char>, f1: Seq<char>, f2: Seq<char>, f3: Seq<char>, f4: Seq<char>, f5: Seq<char>, f6: Seq<char>)
    requires
        no_sep(f0),
        no_sep(f1),
        no_sep(f2),
        no_sep(f3),
        no_sep(f4),
        no_sep(f5),
        no_sep(f6),
        line == f0 + seq!['\t'] + f1 + seq!['\t'] + f2 + seq!['\t'] + f3 + seq!['\t'] + f4 + seq![
            '\t',
        ] + f5 + seq!['\t'] + f6,
    ensures
        split_char(line, '\t') == seq![f0, f1, f2, f3, f4, f5, f6],
{
    let r5 = f5 + seq!['\t'] + f6;
    let r4 = f4 + seq!['\t'] + r5;
    let r3 = f3 + seq!['\t'] + r4;
    let r2 = f2 + seq!['\t'] + r3;
    let r1 = f1 + seq!['\t'] + r2;
    assert(line =~= f0 + seq!['\t'] + r1);
    lemma_split_prefix(f0, r1, '\t');
    assert(r1 =~= f1 + seq!['\t'] + r2);
    lemma_split_prefix(f1, r2, '\t');
    assert(r2 =~= f2 + seq!['\t'] + r3);
    lemma_split_prefix(f2, r3, '\t');
    assert(r3 =~= f3 + seq!['\t'] + r4);
    lemma_split_prefix(f3, r4, '\t');
    assert(r4 =~= f4 + seq!['\t'] + r5);
    lemma_split_prefix(f4, r5, '\t');
    lemma_split_prefix(f5, f6, '\t');
    lemma_split_alone(f6, '\t');
    assert(split_char(line, '\t') =~~= seq![f0, f1, f2, f3, f4, f5, f6]);
}

/// Decoding a task record yields the task it was written from.
pub proof fn lemma_parse_enc_task(t: TaskView)
    requires
        task_view_wf(t),
    ensures
        parse_task(enc_task(t)) == Some(t),
{
    let f0 = esc(t.task_id);
    let f1 = esc(t.description);
    let f2 = esc(t.context);
    let f3 = enc_clock(t.clock_type);
    let f4 = enc_opt(t.image_path);
    let f5 = enc_opt(t.sound_path);
    let f6 = enc_i64(t.created_at);
    lemma_esc_is_no_sep(t.task_id);
    lemma_esc_is_no_sep(t.description);
    lemma_esc_is_no_sep(t.context);
    lemma_enc_clock_no_sep(t.clock_type);
    lemma_enc_opt_no_sep(t.image_path);
    lemma_enc_opt_no_sep(t.sound_path);
    lemma_enc_i64_plain(t.created_at);
    assert(no_sep(f6));
    lemma_split7(enc_task(t), f0, f1, f2, f3, f4, f5, f6);
    lemma_unesc_esc(t.task_id);
    lemma_unesc_esc(t.description);
    lemma_unesc_esc(t.context);
    lemma_parse_enc_clock(t.clock_type);
    lemma_parse_enc_opt(t.image_path);
    lemma_parse_enc_opt(t.sound_path);
    let created = t.created_at as i64;
    assert(enc_i64(created as int) == f6);
    lemma_parse_enc_i64(created);
    let parsed = parse_task(enc_task(t)).unwrap();
    assert(parsed =~= t);
}

// ---------------------------------------------------------------------
// Line-oriented store files: one record per line, each line ending with
// a newline.
// ---------------------------------------------------------------------

pub open spec fn no_nl(s: Seq<char>) -> bool {
    forall|i: int| 0 <= i < s.len() ==> s[i] != '\n'
}

proof fn lemma_no_nl_concat(a: Seq<char>, b: Seq<char>)
    requires
        no_nl(a),
        no_nl(b),
    ensures
        no_nl(a + b),
{
    assert forall|i: int| 0 <= i < (a + b).len() implies (a + b)[i] != '\n' by {
        if i < a.len() {
            assert((a + b)[i] == a[i]);
        } else {
            assert((a + b)[i] == b[i - a.len()]);
        }
    }
}

/// A task record contains no raw newline.
pub proof fn lemma_enc_task_no_nl(t: TaskView)
    ensures
        no_nl(enc_task(t)),
{
    lemma_esc_is_no_sep(t.task_id);
    lemma_esc_is_no_sep(t.description);
    lemma_esc_is_no_sep(t.context);
    lemma_enc_clock_no_sep(t.clock_type);
    lemma_enc_opt_no_sep(t.image_path);
    lemma_enc_opt_no_sep(t.sound_path);
    lemma_enc_i64_plain(t.created_at);
    let tab = seq!['\t'];
    assert(no_nl(tab));
    lemma_no_nl_concat(esc(t.task_id), tab);
    lemma_no_nl_concat(esc(t.task_id) + tab, esc(t.description));
    lemma_no_nl_concat(esc(t.task_id) + tab + esc(t.description), tab);
    lemma_no_nl_concat(esc(t.task_id) + tab + esc(t.description) + tab, esc(t.context));
    lemma_no_nl_concat(esc(t.task_id) + tab + esc(t.description) + tab + esc(t.context), tab);
    lemma_no_nl_concat(
        esc(t.task_id) + tab + esc(t.description) + tab + esc(t.context) + tab,
        enc_clock(t.clock_type),
    );
    lemma_no_nl_concat(
        esc(t.task_id) + tab + esc(t.description) + tab + esc(t.context) + tab + enc_clock(
            t.clock_type,
        ),
        tab,
    );
    lemma_no_nl_concat(
        esc(t.task_id) + tab + esc(t.description) + tab + esc(t.context) + tab + enc_clock(
            t.clock_type,
        ) + tab,
        enc_opt(t.image_path),
    );
    lemma_no_nl_concat(
        esc(t.task_id) + tab + esc(t.description) + tab + esc(t.context) + tab + enc_clock(
            t.clock_type,
        ) + tab + enc_opt(t.image_path),
        tab,
    );
    lemma_no_nl_concat(
        esc(t.task_id) + tab + esc(t.description) + tab + esc(t.context) + tab + enc_clock(
            t.clock_type,
        ) + tab + enc_opt(t.image_path) + tab,
        enc_opt(t.sound_path),
    );
    lemma_no_nl_concat(
        esc(t.task_id) + tab + esc(t.description) + tab + esc(t.context) + tab + enc_clock(
            t.clock_type,
        ) + tab + enc_opt(t.image_path) + tab + enc_opt(t.sound_path),
        tab,
    );
    lemma_no_nl_concat(
        esc(t.task_id) + tab + esc(t.description) + tab + esc(t.context) + tab + enc_clock(
            t.clock_type,
        ) + tab + enc_opt(t.image_path) + tab + enc_opt(t.sound_path) + tab,
        enc_i64(t.created_at),
    );
}

/// The records of `xs` under the record encoding `e`, one per line.
pub open spec fn enc_lines<T>(xs: Seq<T>, e: spec_fn(T) -> Seq<char>) -> Seq<char>
    decreases xs.len(),
{
    if xs.len() == 0 {
        Seq::empty()
    } else {
        e(xs[0]) + seq!['\n'] + enc_lines(xs.drop_first(), e)
    }
}

/// Decode every part with `f`; `None` as soon as one part is malformed.
pub open spec fn parse_all<T>(parts: Seq<Seq<char>>, f: spec_fn(Seq<char>) -> Option<T>) -> Option<
    Seq<T>,
>
    decreases parts.len(),
{
    if parts.len() == 0 {
        Some(Seq::empty())
    } else {
        match (f(parts[0]), parse_all(parts.drop_first(), f)) {
            (Some(x), Some(rest)) => Some(seq![x] + rest),
            _ => None,
        }
    }
}

/// The records a whole store file denotes: every line must end with a
/// newline and decode under `f`.
pub open spec fn parse_lines<T>(s: Seq<char>, f: spec_fn(Seq<char>) -> Option<T>) -> Option<Seq<T>> {
    if s.len() == 0 {
        Some(Seq::empty())
    } else {
        let parts = split_char(s, '\n');
        if parts[parts.len() - 1].len() == 0 {
            parse_all(parts.take(parts.len() - 1), f)
        } else {
            None
        }
    }
}

/// Appending one more part to decode.
pub proof fn lemma_parse_all_snoc<T>(parts: Seq<Seq<char>>, f: spec_fn(Seq<char>) -> Option<T>, i: int)
    requires
        0 <= i < parts.len(),
    ensures
        parse_all(parts.take(i + 1), f) == match (parse_all(parts.take(i), f), f(parts[i])) {
            (Some(xs), Some(x)) => Some(xs.push(x)),
            _ => None,
        },
    decreases i,
{
    if i == 0 {
        assert(parts.take(0) =~~= Seq::<Seq<char>>::empty());
        let one = parts.take(1);
        assert(one.len() == 1);
        assert(one[0] == parts[0]);
        assert(one.drop_first() =~~= Seq::<Seq<char>>::empty());
        if f(parts[0]) is Some {
            let x = f(parts[0]).unwrap();
            assert(seq![x] + Seq::<T>::empty() =~= Seq::<T>::empty().push(x));
        }
    } else {
        let q = parts.drop_first();
        lemma_parse_all_snoc(q, f, i - 1);
        assert(parts.take(i + 1)[0] == parts[0]);
        assert(parts.take(i + 1).drop_first() =~~= q.take(i));
        assert(parts.take(i)[0] == parts[0]);
        assert(parts.take(i).drop_first() =~~= q.take(i - 1));
        assert(q[i - 1] == parts[i]);
        if f(parts[0]) is Some {
            let x0 = f(parts[0]).unwrap();
            if parse_all(q.take(i - 1), f) is Some && f(parts[i]) is Some {
                let ys = parse_all(q.take(i - 1), f).unwrap();
                let x = f(parts[i]).unwrap();
                assert(parse_all(q.take(i), f) == Some(ys.push(x)));
                assert(seq![x0] + ys.push(x) =~= (seq![x0] + ys).push(x));
            }
        }
    }
}

/// Once a prefix is malformed the whole list is.
pub proof fn lemma_parse_all_none<T>(parts: Seq<Seq<char>>, f: spec_fn(Seq<char>) -> Option<T>, i: int)
    requires
        0 <= i <= parts.len(),
        parse_all(parts.take(i), f) is None,
    ensures
        parse_all(parts, f) is None,
    decreases parts.len() - i,
{
    if i == parts.len() {
        assert(parts.take(i) =~~= parts);
    } else {
        lemma_parse_all_snoc(parts, f, i);
        lemma_parse_all_none(parts, f, i + 1);
    }
}

/// Decoding a store file undoes encoding it, line by line.
pub proof fn lemma_parse_enc_lines<T>(xs: Seq<T>, e: spec_fn(T) -> Seq<char>, f: spec_fn(Seq<char>) -> Option<T>)
    requires
        forall|i: int| 0 <= i < xs.len() ==> f(e(#[trigger] xs[i])) == Some(xs[i]),
        forall|i: int| 0 <= i < xs.len() ==> no_nl(e(#[trigger] xs[i])),
    ensures
        parse_lines(enc_lines(xs, e), f) == Some(xs),
    decreases xs.len(),
{
    if xs.len() == 0 {
    } else {
        let rest = xs.drop_first();
        lemma_parse_enc_lines(rest, e, f);
        let line0 = e(xs[0]);
        let enc_rest = enc_lines(rest, e);
        let s = enc_lines(xs, e);
        assert(s == line0 + seq!['\n'] + enc_rest);
        assert(forall|i: int| 0 <= i < line0.len() ==> line0[i] != '\n');
        lemma_split_prefix(line0, enc_rest, '\n');
        let parts = split_char(s, '\n');
        assert(parts == seq![line0] + split_char(enc_rest, '\n'));
        assert(s.len() >= 1);
        if rest.len() == 0 {
            assert(enc_rest =~= Seq::<char>::empty());
            assert(split_char(enc_rest, '\n') =~~= seq![Seq::<char>::empty()]);
            assert(parts.len() == 2);
            assert(parts[1].len() == 0);
            let one = parts.take(1);
            assert(one.len() == 1);
            assert(one[0] == line0);
            assert(one.drop_first() =~~= Seq::<Seq<char>>::empty());
            assert(f(line0) == Some(xs[0]));
            assert(parse_all(Seq::<Seq<char>>::empty(), f) == Some(Seq::<T>::empty()));
            let got = parse_all(one, f);
            assert(got == Some(seq![xs[0]] + Seq::<T>::empty()));
            assert(seq![xs[0]] + Seq::<T>::empty() =~= xs);
        } else {
            assert(enc_rest.len() >= 1);
            let rparts = split_char(enc_rest, '\n');
            lemma_split_len(enc_rest, '\n');
            assert(parse_lines(enc_rest, f) == Some(rest));
            assert(rparts[rparts.len() - 1].len() == 0);
            assert(parse_all(rparts.take(rparts.len() - 1), f) == Some(rest));
            assert(parts.len() == 1 + rparts.len());
            assert(parts[parts.len() - 1] == rparts[rparts.len() - 1]);
            assert(parts.take(parts.len() - 1) =~~= seq![line0] + rparts.take(rparts.len() - 1));
            let body = parts.take(parts.len() - 1);
            assert(body[0] == line0);
            assert(body.drop_first() =~~= rparts.take(rparts.len() - 1));
            assert(parse_all(body, f) == Some(seq![xs[0]] + rest));
            assert(seq![xs[0]] + rest =~= xs);
        }
    }
}

/// The views of a sequence of tasks.
pub open spec fn task_views(ts: Seq<Task>) -> Seq<TaskView> {
    ts.map_values(|t: Task| t@)
}

/// The views of a sequence of context names.
pub open spec fn ctx_views(cs: Seq<String>) -> Seq<Seq<char>> {
    cs.map_values(|c: String| c@)
}

/// The whole task store file for the task views `ts`.
pub open spec fn enc_task_lines(ts: Seq<TaskView>) -> Seq<char> {
    enc_lines(ts, |t: TaskView| enc_task(t))
}

/// The task views a task store file denotes.
pub open spec fn parse_task_lines(s: Seq<char>) -> Option<Seq<TaskView>> {
    parse_lines(s, |l: Seq<char>| parse_task(l))
}

/// The whole context store file for the context names `cs`.
pub open spec fn enc_ctx_lines(cs: Seq<Seq<char>>) -> Seq<char> {
    enc_lines(cs, |c: Seq<char>| esc(c))
}

/// The context names a context store file denotes.
pub open spec fn parse_ctx_lines(s: Seq<char>) -> Option<Seq<Seq<char>>> {
    parse_lines(s, |l: Seq<char>| unesc(l))
}

/// Reloading the task store file written for `ts` yields exactly `ts`:
/// ids, descriptions, contexts, clocks, media and creation times match.
pub proof fn lemma_tasks_round_trip(ts: Seq<TaskView>)
    requires
        forall|i: int| 0 <= i < ts.len() ==> task_view_wf(#[trigger] ts[i]),
    ensures
        parse_task_lines(enc_task_lines(ts)) == Some(ts),
{
    let e = |t: TaskView| enc_task(t);
    let f = |l: Seq<char>| parse_task(l);
    assert forall|i: int| 0 <= i < ts.len() implies f(e(#[trigger] ts[i])) == Some(ts[i]) && no_nl(
        e(ts[i]),
    ) by {
        lemma_parse_enc_task(ts[i]);
        lemma_enc_task_no_nl(ts[i]);
    }
    lemma_parse_enc_lines(ts, e, f);
}

/// Reloading the context store file written for `cs` yields exactly `cs`.
pub proof fn lemma_contexts_round_trip(cs: Seq<Seq<char>>)
    ensures
        parse_ctx_lines(enc_ctx_lines(cs)) == Some(cs),
{
    let e = |c: Seq<char>| esc(c);
    let f = |l: Seq<char>| unesc(l);
    assert forall|i: int| 0 <= i < cs.len() implies f(e(#[trigger] cs[i])) == Some(cs[i]) && no_nl(
        e(cs[i]),
    ) by {
        lemma_unesc_esc(cs[i]);
        lemma_esc_no_sep(cs[i]);
    }
    lemma_parse_enc_lines(cs, e, f);
}

// ---------------------------------------------------------------------
// Executable encoding and decoding.
// ---------------------------------------------------------------------

/// The views of split-off chunks.
pub open spec fn chunk_views(q: Seq<Vec<char>>) -> Seq<Seq<char>> {
    q.map_values(|v: Vec<char>| v@)
}

/// `parts` with `x` glued onto the front of its first part.
pub open spec fn prepend(x: Seq<char>, parts: Seq<Seq<char>>) -> Seq<Seq<char>> {
    seq![x + parts[0]] + parts.drop_first()
}

/// Split the characters of `s` between `from` and `to` on `c`.
pub fn split_char_exec(s: &[char], from: usize, to: usize, c: char) -> (r: Vec<Vec<char>>)
    requires
        from <= to <= s@.len(),
    ensures
        chunk_views(r@) == split_char(s@.subrange(from as int, to as int), c),
        r@.len() >= 1,
{
    let ghost whole = s@.subrange(from as int, to as int);
    let mut out: Vec<Vec<char>> = Vec::new();
    let mut cur: Vec<char> = Vec::new();
    let mut i: usize = from;
    proof {
        lemma_split_len(whole, c);
        assert(chunk_views(out@) =~~= Seq::<Seq<char>>::empty());
        assert(prepend(cur@, split_char(whole, c)) =~~= split_char(whole, c));
        assert(chunk_views(out@) + prepend(cur@, split_char(whole, c)) =~~= split_char(whole, c));
    }
    while i < to
        invariant
            from <= i <= to <= s@.len(),
            whole == s@.subrange(from as int, to as int),
            split_char(whole, c) == chunk_views(out@) + prepend(
                cur@,
                split_char(s@.subrange(i as int, to as int), c),
            ),
        decreases to - i,
    {
        let ghost pre = s@.subrange(i as int, to as int);
        let ghost nxt = s@.subrange(i + 1, to as int);
        proof {
            assert(pre.len() > 0);
            assert(pre[0] == s@[i as int]);
            assert(pre.drop_first() =~= nxt);
            lemma_split_len(nxt, c);
        }
        let ch = s[i];
        if ch == c {
            proof {
                assert(split_char(pre, c) == seq![Seq::<char>::empty()] + split_char(nxt, c));
                assert(prepend(cur@, split_char(pre, c)) =~~= seq![cur@] + split_char(nxt, c));
            }
            let ghost old_out = out@;
            let ghost old_cur = cur@;
            out.push(cur);
            cur = Vec::new();
            proof {
                assert(chunk_views(out@) =~~= chunk_views(old_out).push(old_cur));
                assert(prepend(cur@, split_char(nxt, c)) =~~= split_char(nxt, c));
                assert(chunk_views(old_out) + (seq![old_cur] + split_char(nxt, c)) =~~= (
                chunk_views(old_out).push(old_cur)) + split_char(nxt, c));
            }
        } else {
            proof {
                let rest = split_char(nxt, c);
                assert(split_char(pre, c) == seq![seq![pre[0]] + rest[0]] + rest.drop_first());
                assert(prepend(cur@, split_char(pre, c)) =~~= seq![cur@ + (seq![pre[0]] + rest[0])]
                    + rest.drop_first());
                assert(cur@ + (seq![pre[0]] + rest[0]) =~= (cur@ + seq![pre[0]]) + rest[0]);
                assert(cur@.push(ch) =~= cur@ + seq![pre[0]]);
            }
            cur.push(ch);
            proof {
                let rest = split_char(nxt, c);
                assert(prepend(cur@, rest) =~~= seq![cur@ + rest[0]] + rest.drop_first());
            }
        }
        i = i + 1;
    }
    proof {
        assert(s@.subrange(to as int, to as int) =~= Seq::<char>::empty());
        assert(split_char(Seq::<char>::empty(), c) == seq![Seq::<char>::empty()]);
        assert(prepend(cur@, split_char(Seq::<char>::empty(), c)) =~~= seq![cur@]);
    }
    let ghost old_out = out@;
    let ghost last = cur@;
    out.push(cur);
    proof {
        assert(chunk_views(out@) =~~= chunk_views(old_out).push(last));
        assert(chunk_views(old_out) + seq![last] =~~= chunk_views(old_out).push(last));
    }
    out
}

fn encode_opt_into(out: &mut Vec<char>, o: &Option<String>)
    ensures
        final(out)@ == old(out)@ + enc_opt(crate::task::view_opt_string(*o)),
{
    let ghost base = out@;
    match o {
        None => {
            out.push('0');
            proof {
                assert(base.push('0') =~= base + seq!['0']);
            }
        },
        Some(s) => {
            out.push('1');
            crate::textenc::escape_into(out, s.as_str());
            proof {
                assert(base.push('1') =~= base + seq!['1']);
                assert((base + seq!['1']) + esc(s@) =~= base + (seq!['1'] + esc(s@)));
            }
        },
    }
}

fn encode_clock_into(out: &mut Vec<char>, c: &ClockType)
    ensures
        final(out)@ == old(out)@ + enc_clock(*c),
{
    let ghost base = out@;
    match c {
        ClockType::Once(fire_at) => {
            out.push('o');
            crate::textenc::i64_to_dec_into(out, *fire_at);
            proof {
                assert(base.push('o') =~= base + seq!['o']);
                assert((base + seq!['o']) + enc_i64(*fire_at as int) =~= base + (seq!['o']
                    + enc_i64(*fire_at as int)));
            }
        },
        ClockType::OncePerDay(hour, minute) => {
            out.push('d');
            crate::textenc::u64_to_dec_into(out, *hour as u64);
            out.push(':');
            crate::textenc::u64_to_dec_into(out, *minute as u64);
            proof {
                let h = dec_digits(*hour as nat);
                let m = dec_digits(*minute as nat);
                assert(base.push('d') =~= base + seq!['d']);
                assert(((base + seq!['d']) + h).push(':') =~= ((base + seq!['d']) + h) + seq![
                    ':',
                ]);
                assert((((base + seq!['d']) + h) + seq![':']) + m =~= base + (seq!['d'] + h + seq![
                    ':',
                ] + m));
            }
        },
        ClockType::Period(secs) => {
            out.push('p');
            crate::textenc::u64_to_dec_into(out, *secs);
            proof {
                assert(base.push('p') =~= base + seq!['p']);
                assert((base + seq!['p']) + dec_digits(*secs as nat) =~= base + (seq!['p']
                    + dec_digits(*secs as nat)));
            }
        },
    }
}

fn encode_task_into(out: &mut Vec<char>, t: &Task)
    ensures
        final(out)@ == old(out)@ + enc_task(t@),
{
    let ghost base = out@;
    crate::textenc::escape_into(out, t.task_id.as_str());
    out.push('\t');
    crate::textenc::escape_into(out, t.description.as_str());
    out.push('\t');
    crate::textenc::escape_into(out, t.context.as_str());
    out.push('\t');
    encode_clock_into(out, &t.clock_type);
    out.push('\t');
    encode_opt_into(out, &t.image_path);
    out.push('\t');
    encode_opt_into(out, &t.sound_path);
    out.push('\t');
    crate::textenc::i64_to_dec_into(out, t.created_at);
    proof {
        assert(out@ =~= base + enc_task(t@));
    }
}

/// One store line for `t`, without the terminating newline.
pub fn encode_task(t: &Task) -> (r: String)
    ensures
        r@ == enc_task(t@),
{
    let mut out: Vec<char> = Vec::new();
    encode_task_into(&mut out, t);
    proof {
        assert(Seq::<char>::empty() + enc_task(t@) =~= enc_task(t@));
    }
    crate::strutil::chars_to_string(out.as_slice())
}

proof fn lemma_enc_lines_snoc<T>(xs: Seq<T>, e: spec_fn(T) -> Seq<char>, x: T)
    ensures
        enc_lines(xs.push(x), e) == enc_lines(xs, e) + e(x) + seq!['\n'],
    decreases xs.len(),
{
    if xs.len() == 0 {
        let one = xs.push(x);
        assert(one.len() == 1);
        assert(one[0] == x);
        assert(one.drop_first() =~= Seq::<T>::empty());
        assert(enc_lines(one, e) == e(x) + seq!['\n'] + enc_lines(Seq::<T>::empty(), e));
        assert(e(x) + seq!['\n'] + Seq::<char>::empty() =~= Seq::<char>::empty() + e(x) + seq![
            '\n',
        ]);
    } else {
        let grown = xs.push(x);
        assert(grown[0] == xs[0]);
        assert(grown.drop_first() =~= xs.drop_first().push(x));
        lemma_enc_lines_snoc(xs.drop_first(), e, x);
        assert(e(xs[0]) + seq!['\n'] + (enc_lines(xs.drop_first(), e) + e(x) + seq!['\n']) =~= (e(
            xs[0],
        ) + seq!['\n'] + enc_lines(xs.drop_first(), e)) + e(x) + seq!['\n']);
    }
}

/// The full task store file for the tasks `ts`.
#[verifier::loop_isolation(false)]
pub fn encode_tasks(ts: &Vec<Task>) -> (r: String)
    ensures
        r@ == enc_task_lines(task_views(ts@)),
{
    let ghost e = |t: TaskView| enc_task(t);
    let mut out: Vec<char> = Vec::new();
    let n: usize = ts.len();
    let mut i: usize = 0;
    proof {
        assert(task_views(ts@.take(0)) =~= Seq::<TaskView>::empty());
    }
    while i < n
        invariant
            i <= n,
            n == ts@.len(),
            out@ == enc_lines(task_views(ts@.take(i as int)), e),
        decreases n - i,
    {
        let ghost before = out@;
        encode_task_into(&mut out, &ts[i]);
        out.push('\n');
        proof {
            lemma_enc_lines_snoc(task_views(ts@.take(i as int)), e, ts@[i as int]@);
            assert(e(ts@[i as int]@) == enc_task(ts@[i as int]@));
            assert(task_views(ts@.take(i + 1)) =~= task_views(ts@.take(i as int)).push(
                ts@[i as int]@,
            ));
            assert((before + enc_task(ts@[i as int]@)).push('\n') =~= (before + e(ts@[i as int]@))
                + seq!['\n']);
        }
        i = i + 1;
    }
    proof {
        assert(ts@.take(n as int) =~= ts@);
    }
    crate::strutil::chars_to_string(out.as_slice())
}

/// The full context store file for the context names `cs`.
#[verifier::loop_isolation(false)]
pub fn encode_contexts(cs: &Vec<String>) -> (r: String)
    ensures
        r@ == enc_ctx_lines(ctx_views(cs@)),
{
    let ghost e = |c: Seq<char>| esc(c);
    let mut out: Vec<char> = Vec::new();
    let n: usize = cs.len();
    let mut i: usize = 0;
    proof {
        assert(ctx_views(cs@.take(0)) =~= Seq::<Seq<char>>::empty());
    }
    while i < n
        invariant
            i <= n,
            n == cs@.len(),
            out@ == enc_lines(ctx_views(cs@.take(i as int)), e),
        decreases n - i,
    {
        let ghost before = out@;
        crate::textenc::escape_into(&mut out, cs[i].as_str());
        out.push('\n');
        proof {
            lemma_enc_lines_snoc(ctx_views(cs@.take(i as int)), e, cs@[i as int]@);
            assert(e(cs@[i as int]@) == esc(cs@[i as int]@));
            assert(ctx_views(cs@.take(i + 1)) =~= ctx_views(cs@.take(i as int)).push(
                cs@[i as int]@,
            ));
            assert((before + esc(cs@[i as int]@)).push('\n') =~= (before + e(cs@[i as int]@))
                + seq!['\n']);
        }
        i = i + 1;
    }
    proof {
        assert(cs@.take(n as int) =~= cs@);
    }
    crate::strutil::chars_to_string(out.as_slice())
}

fn parse_opt_field(f: &[char]) -> (r: Option<Option<String>>)
    ensures
        match r {
            Some(o) => parse_opt(f@) == Some(crate::task::view_opt_string(o)),
            None => parse_opt(f@) is None,
        },
{
    if f.len() == 0 {
        return None;
    }
    let tag = f[0];
    if tag == '0' {
        if f.len() == 1 {
            Some(None)
        } else {
            None
        }
    } else if tag == '1' {
        proof {
            assert(f@.drop_first() =~= f@.subrange(1, f@.len() as int));
        }
        match crate::textenc::unescape_range(f, 1, f.len()) {
            Some(v) => Some(Some(crate::strutil::chars_to_string(v.as_slice()))),
            None => None,
        }
    } else {
        proof {
            assert('0' as u32 == 48 && '1' as u32 == 49);
        }
        None
    }
}

fn parse_clock_field(f: &[char]) -> (r: Option<ClockType>)
    ensures
        r == parse_clock(f@),
{
    if f.len() == 0 {
        return None;
    }
    let tag = f[0];
    if tag == 'o' {
        proof {
            assert(f@.drop_first() =~= f@.subrange(1, f@.len() as int));
        }
        match crate::textenc::parse_i64_range(f, 1, f.len()) {
            Some(fire_at) => Some(ClockType::Once(fire_at)),
            None => None,
        }
    } else if tag == 'p' {
        proof {
            assert(f@.drop_first() =~= f@.subrange(1, f@.len() as int));
        }
        match crate::textenc::parse_dec_range(f, 1, f.len()) {
            Some(secs) => Some(ClockType::Period(secs)),
            None => None,
        }
    } else if tag == 'd' {
        proof {
            assert(f@.drop_first() =~= f@.subrange(1, f@.len() as int));
            assert('o' as u32 == 111 && 'p' as u32 == 112 && 'd' as u32 == 100);
        }
        let parts = split_char_exec(f, 1, f.len(), ':');
        let ghost sparts = split_char(f@.drop_first(), ':');
        if parts.len() != 2 {
            return None;
        }
        let p0 = &parts[0];
        let p1 = &parts[1];
        proof {
            assert(p0@ == sparts[0]);
            assert(p1@ == sparts[1]);
            assert(p0@.subrange(0, p0@.len() as int) =~= p0@);
            assert(p1@.subrange(0, p1@.len() as int) =~= p1@);
        }
        let hour = crate::textenc::parse_dec_range(p0.as_slice(), 0, p0.len());
        let minute = crate::textenc::parse_dec_range(p1.as_slice(), 0, p1.len());
        match (hour, minute) {
            (Some(h), Some(m)) => {
                if h <= 255 && m <= 255 {
                    Some(ClockType::OncePerDay(h as u8, m as u8))
                } else {
                    None
                }
            },
            _ => None,
        }
    } else {
        proof {
            assert('o' as u32 == 111 && 'p' as u32 == 112 && 'd' as u32 == 100);
        }
        None
    }
}

/// Decode one task record.
pub fn parse_task_line(s: &[char], from: usize, to: usize) -> (r: Option<Task>)
    requires
        from <= to <= s@.len(),
    ensures
        match r {
            Some(t) => parse_task(s@.subrange(from as int, to as int)) == Some(t@),
            None => parse_task(s@.subrange(from as int, to as int)) is None,
        },
{
    let ghost line = s@.subrange(from as int, to as int);
    let fields = split_char_exec(s, from, to, '\t');
    let ghost fs = split_char(line, '\t');
    if fields.len() != 7 {
        return None;
    }
    proof {
        assert(fields@[0]@ == fs[0]);
        assert(fields@[1]@ == fs[1]);
        assert(fields@[2]@ == fs[2]);
        assert(fields@[3]@ == fs[3]);
        assert(fields@[4]@ == fs[4]);
        assert(fields@[5]@ == fs[5]);
        assert(fields@[6]@ == fs[6]);
    }
    let f0 = &fields[0];
    proof {
        assert(f0@.subrange(0, f0@.len() as int) =~= f0@);
    }
    let task_id = match crate::textenc::unescape_range(f0.as_slice(), 0, f0.len()) {
        Some(v) => v,
        None => {
            return None;
        },
    };
    let f1 = &fields[1];
    proof {
        assert(f1@.subrange(0, f1@.len() as int) =~= f1@);
    }
    let description = match crate::textenc::unescape_range(f1.as_slice(), 0, f1.len()) {
        Some(v) => v,
        None => {
            return None;
        },
    };
    let f2 = &fields[2];
    proof {
        assert(f2@.subrange(0, f2@.len() as int) =~= f2@);
    }
    let context = match crate::textenc::unescape_range(f2.as_slice(), 0, f2.len()) {
        Some(v) => v,
        None => {
            return None;
        },
    };
    let clock_type = match parse_clock_field(fields[3].as_slice()) {
        Some(c) => c,
        None => {
            return None;
        },
    };
    let image_path = match parse_opt_field(fields[4].as_slice()) {
        Some(o) => o,
        None => {
            return None;
        },
    };
    let sound_path = match parse_opt_field(fields[5].as_slice()) {
        Some(o) => o,
        None => {
            return None;
        },
    };
    let f6 = &fields[6];
    proof {
        assert(f6@.subrange(0, f6@.len() as int) =~= f6@);
    }
    let created_at = match crate::textenc::parse_i64_range(f6.as_slice(), 0, f6.len()) {
        Some(n) => n,
        None => {
            return None;
        },
    };
    let t = Task {
        created_at,
        description: crate::strutil::chars_to_string(description.as_slice()),
        task_id: crate::strutil::chars_to_string(task_id.as_slice()),
        clock_type,
        context: crate::strutil::chars_to_string(context.as_slice()),
        image_path,
        sound_path,
    };
    proof {
        assert(t@ =~= parse_task(line).unwrap());
    }
    Some(t)
}

/// Decode a whole task store file: `None` exactly where some line is
/// malformed or the file does not end in a newline.
#[verifier::loop_isolation(false)]
pub fn parse_tasks(s: &str) -> (r: Option<Vec<Task>>)
    ensures
        match r {
            Some(v) => parse_task_lines(s@) == Some(task_views(v@)),
            None => parse_task_lines(s@) is None,
        },
{
    let ghost f = |l: Seq<char>| parse_task(l);
    let chars = crate::strutil::str_to_chars(s);
    if chars.len() == 0 {
        let empty_tasks: Vec<Task> = Vec::new();
        proof {
            assert(task_views(empty_tasks@) =~= Seq::<TaskView>::empty());
        }
        return Some(empty_tasks);
    }
    proof {
        assert(chars@.subrange(0, chars@.len() as int) =~= s@);
    }
    let parts = split_char_exec(chars.as_slice(), 0, chars.len(), '\n');
    let ghost sparts = split_char(s@, '\n');
    let n: usize = parts.len();
    if parts[n - 1].len() != 0 {
        proof {
            assert(sparts[sparts.len() - 1] == parts@[n - 1]@);
        }
        return None;
    }
    let ghost body = sparts.take(sparts.len() - 1);
    let mut out: Vec<Task> = Vec::new();
    let mut i: usize = 0;
    proof {
        assert(sparts[sparts.len() - 1] == parts@[n - 1]@);
        assert(body.take(0) =~~= Seq::<Seq<char>>::empty());
        assert(task_views(out@) =~= Seq::<TaskView>::empty());
    }
    while i < n - 1
        invariant
            i <= n - 1,
            n >= 1,
            n == parts@.len(),
            chunk_views(parts@) == sparts,
            body == sparts.take(sparts.len() - 1),
            parse_all(body.take(i as int), f) == Some(task_views(out@)),
        decreases n - 1 - i,
    {
        let p = &parts[i];
        proof {
            assert(body[i as int] == p@);
            assert(f(body[i as int]) == parse_task(p@));
            assert(p@.subrange(0, p@.len() as int) =~= p@);
            lemma_parse_all_snoc(body, f, i as int);
        }
        match parse_task_line(p.as_slice(), 0, p.len()) {
            Some(t) => {
                let ghost before = out@;
                out.push(t);
                proof {
                    assert(task_views(before.push(t)) =~= task_views(before).push(t@));
                }
            },
            None => {
                proof {
                    assert(parse_all(body.take(i + 1), f) is None);
                    lemma_parse_all_none(body, f, i + 1);
                }
                return None;
            },
        }
        i = i + 1;
    }
    proof {
        assert(body.take(n - 1) =~~= body);
    }
    Some(out)
}

/// Decode a whole context store file.
#[verifier::loop_isolation(false)]
pub fn parse_contexts(s: &str) -> (r: Option<Vec<String>>)
    ensures
        match r {
            Some(v) => parse_ctx_lines(s@) == Some(ctx_views(v@)),
            None => parse_ctx_lines(s@) is None,
        },
{
    let ghost f = |l: Seq<char>| unesc(l);
    let chars = crate::strutil::str_to_chars(s);
    if chars.len() == 0 {
        let empty_ctxs: Vec<String> = Vec::new();
        proof {
            assert(ctx_views(empty_ctxs@) =~= Seq::<Seq<char>>::empty());
        }
        return Some(empty_ctxs);
    }
    proof {
        assert(chars@.subrange(0, chars@.len() as int) =~= s@);
    }
    let parts = split_char_exec(chars.as_slice(), 0, chars.len(), '\n');
    let ghost sparts = split_char(s@, '\n');
    let n: usize = parts.len();
    if parts[n - 1].len() != 0 {
        proof {
            assert(sparts[sparts.len() - 1] == parts@[n - 1]@);
        }
        return None;
    }
    let ghost body = sparts.take(sparts.len() - 1);
    let mut out: Vec<String> = Vec::new();
    let mut i: usize = 0;
    proof {
        assert(sparts[sparts.len() - 1] == parts@[n - 1]@);
        assert(body.take(0) =~~= Seq::<Seq<char>>::empty());
        assert(ctx_views(out@) =~= Seq::<Seq<char>>::empty());
    }
    while i < n - 1
        invariant
            i <= n - 1,
            n >= 1,
            n == parts@.len(),
            chunk_views(parts@) == sparts,
            body == sparts.take(sparts.len() - 1),
            parse_all(body.take(i as int), f) == Some(ctx_views(out@)),
        decreases n - 1 - i,
    {
        let p = &parts[i];
        proof {
            assert(body[i as int] == p@);
            assert(f(body[i as int]) == unesc(p@));
            assert(p@.subrange(0, p@.len() as int) =~= p@);
            lemma_parse_all_snoc(body, f, i as int);
        }
        match crate::textenc::unescape_range(p.as_slice(), 0, p.len()) {
            Some(name) => {
                let ghost before = out@;
                out.push(crate::strutil::chars_to_string(name.as_slice()));
                proof {
                    assert(ctx_views(out@) =~= ctx_views(before).push(name@));
                }
            },
            None => {
                proof {
                    assert(parse_all(body.take(i + 1), f) is None);
                    lemma_parse_all_none(body, f, i + 1);
                }
                return None;
            },
        }
        i = i + 1;
    }
    proof {
        assert(body.take(n - 1) =~~= body);
    }
    Some(out)
}

impl Task {
    /// The UTF-8 bytes of one store line for `self`, without the
    /// terminating newline.
    pub fn to_bytes(&self) -> (r: Vec<u8>)
        ensures
            r@ == vstd::utf8::encode_utf8(enc_task(self@)),
    {
        let line = encode_task(self);
        line.as_str().as_bytes_vec()
    }
}

} // verus!
